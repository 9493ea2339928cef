use lash::builtins::get_builtins;
use lash::context::ContextTracker;
use lash::error::{LashError, LashErrorType};
use lash::lambda::{LambdaTree, NamedTerm};
use lash::macros::Macro;
use std::rc::Rc;

#[test]
fn errors_say_what_went_wrong() {
    let e = LashError::new_church_num_error();
    assert_eq!(e.to_string(), "Church Numeral Error: church numerals disabled");
    let e = LashError::new_file_error("a.lash", Some("No such file"));
    assert_eq!(e.to_string(), "File Error: unable to open file 'a.lash' (No such file)");
    let e = LashError::new_file_error("a.lash", None);
    assert_eq!(e.to_string(), "File Error: unable to open file 'a.lash' ");
    let e = LashError::new_not_found_error("b.lash");
    assert_eq!(e.to_string(), "Not Found: b.lash");
    let e = LashError::new_macro_arg_error(Macro::AlphaEq, 2, 3);
    assert_eq!(
        e.to_string(),
        "Macro Argument Error: macro alphaeq expects 2 arguments, but 3 were given"
    );
    let e = LashError::new_syntax_error("at character 0: expected a term");
    assert_eq!(e.to_string(), "Syntax Error: \nat character 0: expected a term");
    let e = LashError::new_set_key_error("k");
    assert_eq!(e.to_string(), "Set Key Error: unknown key 'k'");
    let e = LashError::new_set_value_error("v");
    assert_eq!(e.to_string(), "Set Value Error: unknown value 'v'");
    let e = LashError::new_unknown_macro_error("m");
    assert_eq!(e.to_string(), "Unknown Macro Error: unknown macro 'm'");
    let e = LashError::new_not_supported_error("cannot open files".to_string());
    assert_eq!(e.to_string(), "Not supported: cannot open files");
    assert_eq!(e.error_type(), LashErrorType::NotSupportedError);
    assert_eq!(e.clone().message(), "cannot open files");
    assert_eq!(LashErrorType::FormatError.prefix(), "Format Error");
}

#[test]
fn builtins_are_all_read() {
    let builtins = get_builtins();
    assert_eq!(builtins.len(), 27);
    assert_eq!(builtins[0].0, "ID");
    assert_eq!(builtins[0].1.to_string(), "\\x . x");
    assert_eq!(builtins[13].0, "PAIR");
    assert_eq!(builtins[13].1.to_string(), "\\x . \\y . \\z . z x y");
    assert_eq!(builtins[26].0, "SUB");
    assert_eq!(builtins[26].1.to_string(), "\\m . \\n . n PRED m");
}

#[test]
fn the_context_holds_what_was_entered_last() {
    let named = |name: &str, var: &str| {
        Rc::new(NamedTerm::new(name.to_string(), LambdaTree::new_variable(var.to_string())))
    };
    let mut context = ContextTracker::new();
    assert!(context.get("a").is_none());
    context.push_frame(vec![named("a", "one"), named("b", "two")]);
    context.push_frame(vec![named("a", "three")]);
    assert_eq!(context.get("a").unwrap().term().to_string(), "three");
    assert_eq!(context.get("b").unwrap().term().to_string(), "two");
    context.pop_frame();
    assert_eq!(context.get("a").unwrap().term().to_string(), "one");
    context.pop_frame();
    assert!(context.get("a").is_none());
    context.pop_frame();
    assert!(context.get("b").is_none());
}
