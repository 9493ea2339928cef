use lash::lambda::LambdaTree;
use lash::parsing::{parse_statement, Statement};
use lash::typing::{gensym_text, infer, Type, TypeMachine};

fn term(text: &str) -> LambdaTree {
    match parse_statement(text).unwrap() {
        Statement::Lambda(tree) => tree,
        other => panic!("not a term: {}", other.to_string()),
    }
}

#[test]
fn the_identity_has_a_function_type_from_a_variable_to_itself() {
    let ty = infer(&term("\\x. x")).unwrap();
    match &ty {
        Type::TypeArrow(from, to) => {
            assert!(matches!(**from, Type::TypeVar(_)));
            assert!(from.same(to));
        }
        _ => panic!("not a function type"),
    }
    assert_eq!(ty.to_string(), "(A -> A)");
}

#[test]
fn self_application_fails_the_occurs_check() {
    let error = infer(&term("\\x. x x")).unwrap_err();
    assert_eq!(error, "occurs check failed - A == A");
    let error = infer(&term("(\\x . x x) (\\x . x x)")).unwrap_err();
    assert!(error.starts_with("occurs check failed"));
}

#[test]
fn a_free_variable_has_no_type() {
    assert_eq!(infer(&term("\\x. y")).unwrap_err(), "unable to instantiate y");
    assert_eq!(infer(&term("z")).unwrap_err(), "unable to instantiate z");
}

#[test]
fn combinators_have_their_principal_types() {
    assert_eq!(infer(&term("\\x y . x")).unwrap().to_string(), "(A -> (B -> A))");
    assert_eq!(
        infer(&term("\\x y z . x z (y z)")).unwrap().to_string(),
        "((C -> (E -> F)) -> ((C -> E) -> (C -> F)))"
    );
    assert_eq!(infer(&term("\\f x . f (f x)")).unwrap().to_string(), "((D -> D) -> (D -> D))");
    assert_eq!(infer(&term("(\\x . x) (\\y . y)")).unwrap().to_string(), "(B -> B)");
    assert_eq!(
        infer(&LambdaTree::new_church_num(2)).unwrap().to_string(),
        "((D -> D) -> (D -> D))"
    );
}

#[test]
fn type_variables_are_named_by_letters_then_numbers() {
    assert_eq!(gensym_text(0), "A");
    assert_eq!(gensym_text(25), "Z");
    assert_eq!(gensym_text(26), "T26");
    assert_eq!(gensym_text(130), "T130");
    let arrow = Type::TypeArrow(Box::new(Type::TypeVar(1)), Box::new(Type::TypeVar(27)));
    assert_eq!(arrow.to_string(), "(B -> T27)");
    assert!(arrow.clone().same(&arrow));
    assert!(!arrow.same(&Type::TypeVar(1)));
    let _machine = TypeMachine::new();
}

#[test]
fn type_variables_are_numbered_in_the_order_in_which_they_are_made() {
    assert_eq!(infer(&term("\\f . \\x . f x")).unwrap().to_string(), "((B -> C) -> (B -> C))");
    assert_eq!(infer(&LambdaTree::new_church_num(1)).unwrap().to_string(), "((B -> C) -> (B -> C))");
    // two calls on one term give the same result
    assert!(infer(&term("\\x y . x")).unwrap().same(&infer(&term("\\x y . x")).unwrap()));
    // a free variable is named before a later occurs check is met
    assert_eq!(infer(&term("y (\\x . x x)")).unwrap_err(), "unable to instantiate y");
    assert_eq!(infer(&term("(\\x . x x) y")).unwrap_err(), "occurs check failed - A == A");
}
