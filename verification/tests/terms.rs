use lash::debruijn::DeBruijnNode;
use lash::lambda::{LambdaNode, LambdaTree, NamedTerm};
use lash::macros::Macro;
use lash::parsing::{parse_statement, parse_statements, Statement};
use lash::strategy::{head_abstraction, redex_line, Strategy};
use std::rc::Rc;

fn term(text: &str) -> LambdaTree {
    match parse_statement(text).unwrap() {
        Statement::Lambda(tree) => tree,
        other => panic!("not a term: {}", other.to_string()),
    }
}

fn var(name: &str) -> LambdaTree {
    LambdaTree::new_variable(name.to_string())
}

#[test]
fn terms_are_written_with_the_parentheses_they_need() {
    assert_eq!(term("x").to_string(), "x");
    assert_eq!(term("\\x y. x").to_string(), "\\x . \\y . x");
    assert_eq!(term("a b c").to_string(), "a b c");
    assert_eq!(term("a (b c)").to_string(), "a (b c)");
    assert_eq!(term("(\\x . x) (\\y . y)").to_string(), "(\\x . x) (\\y . y)");
    assert_eq!(term("$12 x").to_string(), "$12 x");
    assert_eq!(term("λx. x").to_string(), "\\x . x");
    assert_eq!(term("!normalize (a b)").to_string(), "!normalize (a b)");
    assert_eq!(term("!debug x").to_string(), "!debug x");
    assert_eq!(term("a b").fmt_with_parenthesis(true), "a b");
    assert_eq!(term("a b").fmt_with_parenthesis(false), "(a b)");
    assert_eq!(term("\\x . x").fmt_with_parenthesis(true), "(\\x . x)");
    assert_eq!(var("v").fmt_with_parenthesis(false), "v");
}

#[test]
fn terms_are_classified() {
    assert!(var("x").is_variable());
    assert!(term("\\x . x").is_abstraction());
    assert!(term("f x").is_application());
    assert!(LambdaTree::new_church_num(4).is_church_num());
    let named = LambdaTree::new_named(Rc::new(NamedTerm::new("ID".to_string(), term("\\x . x"))));
    assert!(named.is_named());
    assert!(!named.is_abstraction());
    assert!(!var("x").needs_parenthesis(false));
    assert!(term("f x").needs_parenthesis(false));
    assert!(!term("f x").needs_parenthesis(true));
    assert!(term("\\x . x").needs_parenthesis(true));
    assert!(matches!(term("f x").node(), LambdaNode::Application(..)));
    assert_eq!(named.to_string(), "ID");
    assert_eq!(named.resolve().to_string(), "\\x . x");
}

#[test]
fn free_and_bound_variables_are_told_apart() {
    let t = term("\\x . x y (\\z . z x w)");
    assert!(t.contains_free_variable("y"));
    assert!(t.contains_free_variable("w"));
    assert!(!t.contains_free_variable("x"));
    assert!(!t.contains_free_variable("z"));
    assert!(t.contains_bound_variable("x"));
    assert!(t.contains_bound_variable("z"));
    assert!(!t.contains_bound_variable("y"));
    assert_eq!(t.free_variables(), vec!["y".to_string(), "w".to_string()]);
    assert_eq!(t.bound_variables(), vec!["x".to_string(), "z".to_string()]);
    assert_eq!(term("x x x").free_variables(), vec!["x".to_string()]);
}

#[test]
fn substitution_replaces_free_occurrences_and_counts_them() {
    let (result, count) = term("x (\\y . x y) (\\x . x)").substitute("x", term("a b"));
    assert_eq!(result.to_string(), "a b (\\y . a b y) (\\x . x)");
    assert_eq!(count, 2);
    let (result, count) = term("\\x . x").substitute("x", var("y"));
    assert_eq!(result.to_string(), "\\x . x");
    assert_eq!(count, 0);
    let (result, count) = var("z").substitute("x", var("y"));
    assert_eq!(result.to_string(), "z");
    assert_eq!(count, 0);
}

#[test]
fn substitution_keeps_numerals_and_named_links_as_they_are() {
    let named = LambdaTree::new_named(Rc::new(NamedTerm::new("N".to_string(), var("x"))));
    let t = LambdaTree::new_application(named, LambdaTree::new_church_num(2));
    let (result, count) = t.substitute("x", var("y"));
    assert_eq!(result.resolve().to_string(), "x (\\f . \\x . f (f x))");
    assert_eq!(count, 0);
}

#[test]
fn fresh_names_avoid_every_name_in_reach() {
    // y' is free in the body, so the binder becomes y''
    let (result, _) = term("\\y . x y'").substitute("x", var("y"));
    assert_eq!(result.to_string(), "\\y'' . y y'");
    // y' is bound in the body, so the binder becomes y''
    let (result, _) = term("\\y . (\\y' . y' y) x").substitute("x", var("y"));
    assert_eq!(result.to_string(), "\\y'' . (\\y' . y' y'') y");
    // the fresh name is never the name that is substituted for
    let (result, count) = term("\\y . y").substitute("y'", var("y"));
    assert_eq!(result.to_string(), "\\y'' . y''");
    assert_eq!(count, 0);
}

#[test]
fn after_three_primes_a_number_is_appended() {
    let (result, _) = term("\\y . x y' y'' y'''").substitute("x", var("y"));
    assert_eq!(result.to_string(), "\\y0 . y y' y'' y'''");
    let (result, _) = term("\\y . x y y' y'' y''' y0 y1").substitute("x", var("y"));
    assert_eq!(result.to_string(), "\\y2 . y y2 y' y'' y''' y0 y1");
}

#[test]
fn renaming_a_bound_variable_keeps_the_canonical_form() {
    let original = term("\\x . x (\\z . z x) w");
    let (body, _) = term("x (\\z . z x) w").substitute("x", var("fresh"));
    let renamed = LambdaTree::new_abstraction("fresh".to_string(), body);
    assert_eq!(renamed.to_string(), "\\fresh . fresh (\\z . z fresh) w");
    assert!(renamed.alpha_eq(&original));
    assert!(renamed.to_canonical().same(&original.to_canonical()));
    assert!(!renamed.alpha_eq(&term("\\x . x (\\z . z x) v")));
}

#[test]
fn canonical_forms_count_binders() {
    assert_eq!(term("\\x . x").to_canonical().to_string(), "\\ 1");
    assert_eq!(term("\\x . \\y . x").to_canonical().to_string(), "\\ \\ 2");
    assert_eq!(term("\\x . \\x . x").to_canonical().to_string(), "\\ \\ 1");
    assert_eq!(term("\\x . (\\x . x) x").to_canonical().to_string(), "\\ (\\ 1) 1");
    assert_eq!(term("\\x . x y").to_canonical().to_string(), "\\ 1 y");
    assert_eq!(term("a (b c)").to_canonical().to_string(), "a (b c)");
    assert_eq!(term("a b c").to_canonical().to_string(), "a b c");
    assert_eq!(LambdaTree::new_church_num(2).to_canonical().to_string(), "\\ \\ 2 (2 1)");
    assert!(matches!(term("\\x . x").to_canonical(), DeBruijnNode::Abstraction(_)));
    assert!(matches!(DeBruijnNode::from_tree(&var("q")), DeBruijnNode::FreeVariable(_)));
}

#[test]
fn numerals_expand_to_iterated_application() {
    assert_eq!(LambdaTree::unwrap_church_num(0).to_string(), "\\f . \\x . x");
    assert_eq!(LambdaTree::unwrap_church_num(3).to_string(), "\\f . \\x . f (f (f x))");
    assert!(LambdaTree::new_church_num(3).alpha_eq(&term("\\g . \\y . g (g (g y))")));
    assert!(term("a $1").has_church_nums());
    assert!(!term("a b").has_church_nums());
}

#[test]
fn named_terms_are_linked_where_the_name_is_free() {
    let registry = vec![
        Rc::new(NamedTerm::new("ID".to_string(), term("\\x . x"))),
        Rc::new(NamedTerm::new("K".to_string(), term("\\x y . x"))),
    ];
    let linked = term("ID (\\K . K ID) K z").set_named_terms(&registry);
    assert_eq!(linked.to_string(), "ID (\\K . K ID) K z");
    assert_eq!(
        linked.resolve().to_string(),
        "(\\x . x) (\\K . K (\\x . x)) (\\x . \\y . x) z"
    );
    assert_eq!(registry[1].term().to_string(), "\\x . \\y . x");
    assert_eq!(registry[1].name(), "K");
}

#[test]
fn normal_order_contracts_the_outer_redex() {
    let t = term("(\\x . y) ((\\z . z) w)");
    let step = Strategy::Normal.reduce(&t, false).unwrap();
    assert_eq!(step.term.to_string(), "y");
    assert_eq!(step.redex.to_string(), "(\\x . y) ((\\z . z) w)");
    assert_eq!(step.depth, 0);
    assert!(step.text.is_none());
}

#[test]
fn applicative_order_contracts_nested_redexes_first() {
    let t = term("(\\x . y) ((\\z . z) w)");
    let step = Strategy::Applicative.reduce(&t, false).unwrap();
    assert_eq!(step.term.to_string(), "(\\x . y) w");
    assert_eq!(step.redex.to_string(), "(\\z . z) w");
    assert_eq!(step.depth, 1);
    let (redex, depth) = Strategy::Applicative.next_redex(&t).unwrap();
    assert_eq!(redex.to_string(), "(\\z . z) w");
    assert_eq!(depth, 1);
}

#[test]
fn the_deeper_candidate_wins_and_ties_go_left() {
    // both sides hold a redex at the same depth: the left one is taken
    let t = term("v ((\\a . a) b) (w ((\\c . c) d))");
    let step = Strategy::Normal.reduce(&t, false).unwrap();
    assert_eq!(step.term.to_string(), "v b (w ((\\c . c) d))");
    assert_eq!(step.depth, 2);
    let step = Strategy::Applicative.reduce(&t, false).unwrap();
    assert_eq!(step.term.to_string(), "v b (w ((\\c . c) d))");
    // the left side holds the deeper redex: it is taken
    let t = term("v ((\\a . a) b) ((\\c . c) d)");
    let step = Strategy::Normal.reduce(&t, false).unwrap();
    assert_eq!(step.term.to_string(), "v b ((\\c . c) d)");
    assert_eq!(step.depth, 2);
    // the right side holds the deeper redex: it is taken
    let t = term("v ((\\a . a) b) (w (u ((\\c . c) d)))");
    let step = Strategy::Normal.reduce(&t, false).unwrap();
    assert_eq!(step.term.to_string(), "v ((\\a . a) b) (w (u d))");
    assert_eq!(step.depth, 3);
    let step = Strategy::Applicative.reduce(&t, false).unwrap();
    assert_eq!(step.term.to_string(), "v ((\\a . a) b) (w (u d))");
    // call by name never looks into the argument side
    assert!(Strategy::CallByName.reduce(&t, false).is_none());
}

#[test]
fn call_by_name_stops_at_weak_head_form() {
    assert!(Strategy::CallByName.reduce(&term("\\x . (\\y . y) x"), false).is_none());
    assert!(Strategy::CallByName.reduce(&term("v ((\\y . y) x)"), false).is_none());
    let step = Strategy::CallByName.reduce(&term("(\\a . a) b ((\\y . y) x)"), false).unwrap();
    assert_eq!(step.term.to_string(), "b ((\\y . y) x)");
    let (result, steps, _) =
        Strategy::CallByName.normalize(term("(\\a . a) (\\b . (\\y . y) b) c"), false);
    assert_eq!(result.to_string(), "c");
    assert_eq!(steps, 3);
    assert!(Strategy::Normal.reduce(&term("\\x . (\\y . y) x"), false).is_some());
}

#[test]
fn macros_numerals_and_variables_hold_no_redex() {
    for strategy in [Strategy::Normal, Strategy::Applicative, Strategy::CallByName] {
        assert!(strategy.reduce(&var("x"), false).is_none());
        assert!(strategy.reduce(&LambdaTree::new_church_num(3), false).is_none());
        assert!(strategy.reduce(&term("!macros"), false).is_none());
        assert!(strategy.next_redex(&term("x y")).is_none());
    }
}

#[test]
fn numerals_and_named_terms_are_applied_as_abstractions() {
    let two = LambdaTree::new_application(LambdaTree::new_church_num(2), var("g"));
    let (result, steps, _) = Strategy::Normal.normalize(two, false);
    assert_eq!(result.to_string(), "\\x . g (g x)");
    assert_eq!(steps, 1);
    let id = Rc::new(NamedTerm::new("ID".to_string(), term("\\x . x")));
    let applied = LambdaTree::new_application(LambdaTree::new_named(id), var("z"));
    let (x, body) = head_abstraction(&LambdaTree::new_church_num(1)).unwrap();
    assert_eq!(x, "f");
    assert_eq!(body.to_string(), "\\x . f x");
    assert!(head_abstraction(&var("v")).is_none());
    let step = Strategy::Applicative.reduce(&applied, false).unwrap();
    assert_eq!(step.term.to_string(), "z");
}

#[test]
fn omega_applied_to_itself_never_reaches_a_normal_form() {
    for strategy in [Strategy::Normal, Strategy::Applicative, Strategy::CallByName] {
        let mut current = term("(\\x . x x) (\\x . x x)");
        for _ in 0..1000 {
            let step = strategy.reduce(&current, false);
            assert!(step.is_some());
            current = step.unwrap().term;
            assert_eq!(current.to_string(), "(\\x . x x) (\\x . x x)");
        }
    }
}

#[test]
fn identity_applied_normalizes_in_one_step() {
    let (result, steps, lines) = Strategy::Normal.normalize(term("(\\x.x) z"), false);
    assert_eq!(result.to_string(), "z");
    assert_eq!(steps, 1);
    assert!(lines.is_empty());
}

#[test]
fn normalizing_a_normal_form_takes_no_step() {
    for strategy in [Strategy::Normal, Strategy::Applicative] {
        let (first, _, _) = strategy.normalize(term("(\\f x . f (f x)) (\\f x . f (f x))"), false);
        let canonical = first.to_canonical().to_string();
        let (second, steps, _) = strategy.normalize(first, false);
        assert_eq!(steps, 0);
        assert_eq!(second.to_canonical().to_string(), canonical);
        assert_eq!(canonical, "\\ \\ 2 (2 (2 (2 1)))");
    }
}

#[test]
fn both_orders_reach_the_same_normal_form() {
    let text = "(\\m n f x . m f (n f x)) (\\f x . f (f x)) (\\f x . f x)";
    let (normal, normal_steps, _) = Strategy::Normal.normalize(term(text), false);
    let (applicative, applicative_steps, _) = Strategy::Applicative.normalize(term(text), false);
    assert!(normal.alpha_eq(&applicative));
    assert!(normal.alpha_eq(&term("\\f x . f (f (f x))")));
    assert_eq!(normal_steps, 6);
    assert_eq!(applicative_steps, 6);
}

#[test]
fn verbose_steps_come_with_a_line_each() {
    let (result, steps, lines) = Strategy::Normal.normalize(term("(\\x . x) ((\\y . y) z)"), true);
    assert_eq!(result.to_string(), "z");
    assert_eq!(steps, 2);
    assert_eq!(lines.len(), 2);
    assert!(lines[0].contains("(\\x . x)"));
    let step = Strategy::Normal.reduce(&term("\\a . w ((\\y . y) z)"), true).unwrap();
    let line = step.text.unwrap();
    assert!(line.starts_with("\\a . w ("));
    assert!(line.ends_with(")"));
    assert_eq!(redex_line("f", "x"), "f x");
    assert!(Strategy::reduction_format_redex(&var("f"), &var("x"), false).is_none());
    assert!(Strategy::reduction_format_redex(&var("f"), &var("x"), true).unwrap().contains("f"));
    assert_eq!(
        Strategy::reduction_format_application(&var("f"), Some("F".to_string()), &var("x"), None, true),
        Some("F x".to_string())
    );
    assert_eq!(
        Strategy::reduction_format_application(
            &term("\\a . a"),
            Some("F".to_string()),
            &term("b c"),
            None,
            true
        ),
        Some("(F) (b c)".to_string())
    );
    assert_eq!(
        Strategy::reduction_format_application(&var("f"), None, &term("b c"), Some("X".to_string()), true),
        Some("f (X)".to_string())
    );
    assert_eq!(
        Strategy::reduction_format_application(&var("f"), None, &var("x"), None, true),
        Some("f x".to_string())
    );
    assert_eq!(Strategy::reduction_format_application(&var("f"), None, &var("x"), None, false), None);
}

#[test]
fn strategies_have_names() {
    assert_eq!(Strategy::from_str("applicative"), Ok(Strategy::Applicative));
    assert_eq!(Strategy::from_str("normal"), Ok(Strategy::Normal));
    assert_eq!(Strategy::from_str("callbyname"), Ok(Strategy::CallByName));
    assert_eq!(Strategy::from_str("Normal"), Err(()));
    assert_eq!(Strategy::default(), Strategy::Applicative);
    assert_eq!(Strategy::CallByName.name(), "callbyname");
}

#[test]
fn statements_are_read() {
    assert_eq!(parse_statement("T := \\x y . x").unwrap().to_string(), "T := \\x . \\y . x");
    assert_eq!(parse_statement("  f   x  ").unwrap().to_string(), "f x");
    assert_eq!(parse_statement("@set strategy normal").unwrap().to_string(), "@set strategy normal");
    assert!(matches!(parse_statement("").unwrap(), Statement::Comment));
    assert!(parse_statement("f x)").is_err());
    assert!(parse_statement("\\ . x").is_err());
    assert!(parse_statement("$").is_err());
    assert!(parse_statement("$99999999999").is_err());
    assert!(parse_statement("@frobnicate").is_err());
    assert!(parse_statement("a\nb").is_err());
    let statements = parse_statements("a := b\n\n# nothing\nc d\n@usestd\n").unwrap();
    assert_eq!(statements.len(), 3);
    assert_eq!(statements[0].to_string(), "a := b");
    assert_eq!(statements[1].to_string(), "c d");
    assert_eq!(statements[2].to_string(), "@usestd");
    assert!(parse_statements("a := b\n)").is_err());
}

#[test]
fn macros_are_found_by_the_start_of_their_names() {
    assert_eq!(Macro::from_str("normalize"), Ok(Macro::Normalize));
    assert_eq!(Macro::from_str("n"), Ok(Macro::Normalize));
    assert_eq!(Macro::from_str("alphaeq"), Ok(Macro::AlphaEq));
    assert_eq!(Macro::from_str("a"), Ok(Macro::AlphaEq));
    assert_eq!(Macro::from_str("type"), Ok(Macro::Type));
    assert_eq!(Macro::from_str("ti"), Ok(Macro::Time));
    assert_eq!(Macro::from_str("t"), Err(()));
    assert_eq!(Macro::from_str("de"), Err(()));
    assert_eq!(Macro::from_str("deb"), Err(()));
    assert_eq!(Macro::from_str("debu"), Ok(Macro::Debug));
    assert_eq!(Macro::from_str("debr"), Ok(Macro::DeBruijn));
    assert_eq!(Macro::from_str("r"), Err(()));
    assert_eq!(Macro::from_str(""), Err(()));
    assert_eq!(Macro::from_str("normalizer"), Err(()));
    assert_eq!(Macro::macros().len(), 12);
    assert_eq!(Macro::AlphaEq.nargs(), 2);
    assert_eq!(Macro::Macros.nargs(), 0);
    assert_eq!(Macro::Time.nargs(), 1);
    assert_eq!(Macro::VReduce.name(), "vreduce");
    assert_eq!(Macro::Resolve.help(), "resolve all named terms");
}

#[test]
fn macros_are_listed() {
    let lines = Macro::print_all();
    assert_eq!(lines.len(), 12);
    assert_eq!(
        lines[0],
        "alphaeq  \tcheck for alpha equivalence and return Church-encoded boolean"
    );
    assert_eq!(lines[1], "cnormalize \tnormalize and show number of reductions performed");
    assert_eq!(lines[8], "time     \ttime the execution of the macros contained inside the term");
}

#[test]
fn the_time_macro_writes_the_duration() {
    let (result, lines) = Macro::Time.apply(Strategy::Normal, vec![var("x")], 83_125).unwrap();
    assert_eq!(result.to_string(), "x");
    assert_eq!(lines, vec!["Time elapsed: 1m 23s 125ms".to_string()]);
    let (_, lines) = Macro::Time.apply(Strategy::Normal, vec![var("x")], 0).unwrap();
    assert_eq!(lines, vec!["Time elapsed: 0s".to_string()]);
    assert_eq!(lash::macros::time_line("2h 37m"), "Time elapsed: 2h 37m");
}

#[test]
fn macros_check_their_arguments() {
    let error = Macro::AlphaEq.apply(Strategy::Normal, vec![var("x")], 0).unwrap_err();
    assert_eq!(error.message(), "macro alphaeq expects 2 arguments, but 1 were given");
    let (result, lines) = Macro::Macros.apply(Strategy::Normal, vec![], 0).unwrap();
    assert_eq!(result.to_string(), "!macros ");
    assert_eq!(lines.len(), 12);
    let (result, lines) = Macro::Reduce.apply(Strategy::Normal, vec![var("x")], 0).unwrap();
    assert_eq!(result.to_string(), "x");
    assert!(lines.is_empty());
}

#[test]
fn nodes_are_copied_with_what_they_hold() {
    let t = term("!alphaeq (a b) c");
    assert!(!t.is_macro_free());
    assert!(term("a b").is_macro_free());
    let copy = t.node().clone();
    match copy {
        LambdaNode::Macro(m, args) => {
            assert_eq!(m, Macro::AlphaEq);
            assert_eq!(args.len(), 2);
            assert_eq!(args[0].to_string(), "a b");
        }
        _ => panic!("not a macro"),
    }
    let named = NamedTerm::new("N".to_string(), var("n"));
    assert_eq!(named.clone().name(), "N");
}

#[test]
fn the_sides_of_a_redex_are_painted_or_left_plain() {
    let line = Strategy::reduction_format_redex(&var("f"), &var("x"), true).unwrap();
    assert!(line == "f x" || line == "\u{1b}[34mf\u{1b}[0m \u{1b}[94mx\u{1b}[0m");
    let step = Strategy::Normal.reduce(&term("(\\a . a) b"), true).unwrap();
    let text = step.text.unwrap();
    assert!(
        text == "(\\a . a) b" || text == "\u{1b}[34m(\\a . a)\u{1b}[0m \u{1b}[94mb\u{1b}[0m"
    );
}
