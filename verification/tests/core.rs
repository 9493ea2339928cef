use lash::lambda::LambdaTree;
use lash::strategy::Strategy;

fn var(name: &str) -> LambdaTree {
    LambdaTree::new_variable(name.to_string())
}

fn abs(name: &str, body: LambdaTree) -> LambdaTree {
    LambdaTree::new_abstraction(name.to_string(), body)
}

fn app(left: LambdaTree, right: LambdaTree) -> LambdaTree {
    LambdaTree::new_application(left, right)
}

#[test]
fn substitute_renames_a_capturing_binder() {
    let term = abs("y", var("x"));
    let (result, count) = term.substitute("x", var("y"));
    assert_eq!(result.to_string(), "\\y' . y");
    assert_eq!(count, 1);
}

#[test]
fn normalize_identity_application_takes_one_step() {
    let term = app(abs("x", var("x")), var("z"));
    let (result, steps, lines) = Strategy::Normal.normalize(term, false);
    assert_eq!(result.to_string(), "z");
    assert_eq!(steps, 1);
    assert!(lines.is_empty());
}

#[test]
fn shared_subterms_stay_the_same_term() {
    let shared = abs("x", var("x"));
    let copy = shared.clone();
    let both = app(shared, copy.clone());
    assert_eq!(both.to_string(), "(\\x . x) (\\x . x)");
    assert_eq!(copy.to_string(), "\\x . x");
}
