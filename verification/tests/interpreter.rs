use lash::environment::Environment;
use lash::error::{LashError, LashErrorType, LashResult};
use lash::interpreter::{Interpreter, InterpreterDirective};
use lash::parsing::Statement;
use lash::strategy::Strategy;

struct TestEnvironment {
    out: Vec<String>,
    err: Vec<String>,
    files: Vec<(String, String)>,
}

impl TestEnvironment {
    fn new() -> Self {
        TestEnvironment { out: Vec::new(), err: Vec::new(), files: Vec::new() }
    }
}

impl Environment for TestEnvironment {
    type Instant = std::time::Instant;

    fn stdout(&mut self, line: &str) {
        self.out.push(line.to_string());
    }

    fn stderr(&mut self, line: &str) {
        self.err.push(line.to_string());
    }

    fn load(&self, file: &str) -> LashResult<String> {
        for (name, contents) in &self.files {
            if name == file {
                return Ok(contents.clone());
            }
        }
        Err(LashError::new_file_error(file, None))
    }

    fn now(&self) -> Self::Instant {
        std::time::Instant::now()
    }

    fn elapsed(&self, then: Self::Instant) -> u64 {
        then.elapsed().as_millis() as u64
    }
}

fn test_statement<E: Environment>(interpreter: &mut Interpreter<E>, input: &str, expected: &str) {
    let statement = interpreter.interpret_line(input).unwrap();
    let serialized = statement.to_string();
    assert_eq!(serialized, expected);
}

#[test]
fn id() {
    let env = TestEnvironment::new();
    let mut interpreter = Interpreter::new(env);
    test_statement(&mut interpreter, "!normalize ((\\x . x) x)", "x");
}

#[test]
fn church_addition() {
    let env = TestEnvironment::new();
    let mut interpreter = Interpreter::new(env);
    interpreter.interpret_std().unwrap();
    interpreter.set_church_num_enabled(true);
    // 5 + 2
    test_statement(
        &mut interpreter,
        "!normalize (ADD $5 $2)",
        "\\f . \\x . f (f (f (f (f (f (f x))))))",
    );
    // 0 + 0
    test_statement(&mut interpreter, "!normalize (ADD $0 $0)", "\\f . \\x . x");
}

#[test]
fn issue_1_capture_avoidance() {
    let env = TestEnvironment::new();
    let mut interpreter = Interpreter::new(env);
    // the full term
    test_statement(
        &mut interpreter,
        "!normalize ((\\f x. f (f x)) (\\f x. f (f x)))",
        "\\x . \\x' . x (x (x (x x')))",
    );
    // the critical part
    test_statement(
        &mut interpreter,
        "!reduce (\\x . (\\f . \\x . f (f x)) (\\x' . x (x x')))",
        "\\x . \\x' . (\\x' . x (x x')) ((\\x' . x (x x')) x')",
    );
}

#[test]
fn capture_avoidance_example_under_normal_order() {
    let env = TestEnvironment::new();
    let mut interpreter = Interpreter::new(env);
    interpreter.set_strategy(Strategy::Normal);
    test_statement(
        &mut interpreter,
        "!normalize ((\\f x. f (f x)) (\\f x. f (f x)))",
        "\\x . \\x' . x (x (x (x x')))",
    );
}

#[test]
fn numerals_are_refused_until_enabled() {
    let mut interpreter = Interpreter::new(TestEnvironment::new());
    let error = interpreter.interpret_line("$3").unwrap_err();
    assert_eq!(error.error_type(), LashErrorType::ChurchNumError);
    assert_eq!(error.to_string(), "Church Numeral Error: church numerals disabled");
    interpreter.set("numerals", "true").unwrap();
    test_statement(&mut interpreter, "$3", "$3");
    test_statement(&mut interpreter, "!resolve $2", "\\f . \\x . f (f x)");
}

#[test]
fn set_rejects_unknown_keys_and_values() {
    let mut interpreter = Interpreter::new(TestEnvironment::new());
    let error = interpreter.set("colour", "blue").unwrap_err();
    assert_eq!(error.error_type(), LashErrorType::SetKeyError);
    assert_eq!(error.message(), "unknown key 'colour'");
    let error = interpreter.set("strategy", "lazy").unwrap_err();
    assert_eq!(error.error_type(), LashErrorType::SetValueError);
    assert_eq!(error.message(), "unknown value 'lazy'");
    let error = interpreter.set("numerals", "yes").unwrap_err();
    assert_eq!(error.error_type(), LashErrorType::SetValueError);
    interpreter.set("strategy", "normal").unwrap();
    assert_eq!(interpreter.strategy(), Strategy::Normal);
    interpreter.set("strategy", "callbyname").unwrap();
    assert_eq!(interpreter.strategy(), Strategy::CallByName);
    interpreter.set("strategy", "applicative").unwrap();
    assert_eq!(interpreter.strategy(), Strategy::Applicative);
}

#[test]
fn new_interpreter_reduces_in_applicative_order() {
    let interpreter = Interpreter::new(TestEnvironment::new());
    assert_eq!(interpreter.strategy(), Strategy::Applicative);
    assert!(interpreter.env().out.is_empty());
}

#[test]
fn assignment_names_a_term_for_later_lines() {
    let mut interpreter = Interpreter::new(TestEnvironment::new());
    test_statement(&mut interpreter, "I := \\a . a", "I := \\a . a");
    test_statement(&mut interpreter, "I", "I");
    test_statement(&mut interpreter, "!resolve (I I)", "(\\a . a) (\\a . a)");
    test_statement(&mut interpreter, "!normalize (I z)", "z");
    // a bound variable of the same name is no link
    test_statement(&mut interpreter, "!resolve (\\I . I)", "\\I . I");
    // a later assignment replaces the earlier one
    test_statement(&mut interpreter, "I := \\b . b", "I := \\b . b");
    test_statement(&mut interpreter, "!resolve I", "\\b . b");
}

#[test]
fn directives_are_obeyed() {
    let mut interpreter = Interpreter::new(TestEnvironment::new());
    test_statement(&mut interpreter, "@echo \"hello there\"", "@echo \"hello there\"");
    assert_eq!(interpreter.env().out, vec!["hello there".to_string()]);
    test_statement(&mut interpreter, "@set strategy normal", "@set strategy normal");
    assert_eq!(interpreter.strategy(), Strategy::Normal);
    test_statement(&mut interpreter, "@usestd", "@usestd");
    test_statement(&mut interpreter, "!resolve K", "\\x . \\y . x");
}

#[test]
fn comment_lines_say_nothing() {
    let mut interpreter = Interpreter::new(TestEnvironment::new());
    let statement = interpreter.interpret_line("   # nothing here").unwrap();
    assert!(matches!(statement, Statement::Comment));
    assert_eq!(statement.to_string(), "");
    test_statement(&mut interpreter, "x y # applied", "x y");
}

#[test]
fn included_files_are_interpreted() {
    let mut env = TestEnvironment::new();
    env.files.push(("defs".to_string(), "TWICE := \\f x . f (f x)\n@echo \"loaded\"\n".to_string()));
    let mut interpreter = Interpreter::new(env);
    test_statement(&mut interpreter, "@include \"defs\"", "@include \"defs\"");
    assert_eq!(interpreter.env().out, vec!["loaded".to_string()]);
    test_statement(&mut interpreter, "!normalize (TWICE g y)", "g (g y)");
    let error = interpreter.interpret_line("@include \"missing\"").unwrap_err();
    assert_eq!(error.error_type(), LashErrorType::FileError);
    assert_eq!(error.to_string(), "File Error: unable to open file 'missing' ");
}

#[test]
fn a_file_that_includes_itself_is_stopped() {
    let mut env = TestEnvironment::new();
    env.files.push(("loop".to_string(), "@include \"loop\"\n".to_string()));
    let mut interpreter = Interpreter::new(env);
    let error = interpreter.include_file("loop".to_string()).unwrap_err();
    assert_eq!(error.error_type(), LashErrorType::NotSupportedError);
}

#[test]
fn macros_print_to_the_environment() {
    let mut interpreter = Interpreter::new(TestEnvironment::new());
    test_statement(&mut interpreter, "!debug (\\x . x y)", "\\x . x y");
    assert_eq!(interpreter.env().out, vec!["\\x . x y".to_string()]);
    test_statement(&mut interpreter, "!debruijn (\\x . \\y . x y z)", "\\x . \\y . x y z");
    assert_eq!(interpreter.env().out[1], "\\ \\ 2 1 z");
    test_statement(&mut interpreter, "!cnormalize ((\\x . x) z)", "z");
    assert_eq!(interpreter.env().out[2], "Number of reductions: 1");
    test_statement(&mut interpreter, "!alphaeq (\\x . x) (\\y . y)", "\\x . \\y . x");
    assert_eq!(interpreter.env().out[3], "Terms are alpha equivalent");
    test_statement(&mut interpreter, "!alphaeq (\\x . x) (\\y . z)", "\\x . \\y . y");
    assert_eq!(interpreter.env().out[4], "Terms are NOT alpha equivalent");
    test_statement(&mut interpreter, "!type (\\x . x)", "\\x . x");
    assert_eq!(interpreter.env().out[5], "Infered type: (A -> A)");
    test_statement(&mut interpreter, "!type (\\x . x x)", "\\x . x x");
    assert_eq!(interpreter.env().out[6], "Cannot infer type: occurs check failed - A == A");
    test_statement(&mut interpreter, "!time (\\x . x)", "\\x . x");
    assert!(interpreter.env().out[7].starts_with("Time elapsed: "));
    test_statement(&mut interpreter, "!vnormalize ((\\x . x) ((\\y . y) z))", "z");
    assert_eq!(interpreter.env().out.len(), 10);
    test_statement(&mut interpreter, "!vreduce ((\\x . x) z)", "z");
    assert_eq!(interpreter.env().out.len(), 11);
}

#[test]
fn macro_errors_are_reported() {
    let mut interpreter = Interpreter::new(TestEnvironment::new());
    let error = interpreter.interpret_line("!normalize").unwrap_err();
    assert_eq!(error.error_type(), LashErrorType::MacroArgError);
    assert_eq!(
        error.to_string(),
        "Macro Argument Error: macro normalize expects 1 arguments, but 0 were given"
    );
    let error = interpreter.interpret_line("!frobnicate x").unwrap_err();
    assert_eq!(error.error_type(), LashErrorType::UnknownMacroError);
    assert_eq!(error.to_string(), "Unknown Macro Error: unknown macro 'frobnicate'");
    let error = interpreter.interpret_line("!debruijn (!macros)").unwrap_err();
    assert_eq!(error.error_type(), LashErrorType::NotSupportedError);
    let error = interpreter.interpret_line("(x").unwrap_err();
    assert_eq!(error.error_type(), LashErrorType::SyntaxError);
}

#[test]
fn directive_texts() {
    assert_eq!(InterpreterDirective::UseStd.to_string(), "@usestd");
    assert_eq!(
        InterpreterDirective::SetOption("numerals".to_string(), "true".to_string()).to_string(),
        "@set numerals true"
    );
    assert_eq!(InterpreterDirective::Include("a.lash".to_string()).to_string(), "@include \"a.lash\"");
    assert_eq!(InterpreterDirective::Echo("hi".to_string()).to_string(), "@echo \"hi\"");
}

#[test]
fn contents_are_interpreted_up_to_the_first_failure() {
    let mut interpreter = Interpreter::new(TestEnvironment::new());
    let error = interpreter
        .interpret_contents("A := \\x . x\n@echo \"one\"\n$1\n@echo \"two\"\nB := \\y . y\n")
        .unwrap_err();
    assert_eq!(error.error_type(), LashErrorType::ChurchNumError);
    assert_eq!(interpreter.env().out, vec!["one".to_string()]);
    test_statement(&mut interpreter, "!resolve A", "\\x . x");
    test_statement(&mut interpreter, "!resolve B", "B");
    // a text with a line that is no statement is not interpreted at all
    let error = interpreter.interpret_contents("C := \\x . x\n(\n").unwrap_err();
    assert_eq!(error.error_type(), LashErrorType::SyntaxError);
    test_statement(&mut interpreter, "!resolve C", "C");
    interpreter.interpret_contents("").unwrap();
    interpreter.interpret_contents("# only a comment\n\n").unwrap();
}

#[test]
fn statements_are_interpreted_one_by_one() {
    let mut interpreter = Interpreter::new(TestEnvironment::new());
    let statement = lash::parsing::parse_statement("T := \\x y . x").unwrap();
    let done = interpreter.interpret_statement(statement).unwrap();
    assert_eq!(done.to_string(), "T := \\x . \\y . x");
    let statement = lash::parsing::parse_statement("T a b").unwrap();
    let done = interpreter.interpret_statement(statement).unwrap();
    assert_eq!(done.to_string(), "T a b");
    interpreter.env_mut().out.push("direct".to_string());
    assert_eq!(interpreter.env().out, vec!["direct".to_string()]);
}

#[test]
fn the_standard_definitions_are_known_afterwards() {
    let mut interpreter = Interpreter::new(TestEnvironment::new());
    interpreter.interpret_std().unwrap();
    test_statement(&mut interpreter, "!resolve ADD", "\\m . \\n . \\f . \\x . m f (n f x)");
    test_statement(&mut interpreter, "!resolve NOT", "\\p . p (\\x . \\y . y) (\\x . \\y . x)");
    assert!(interpreter.env().out.is_empty());
}

#[test]
fn setting_an_option_leaves_the_environment_alone() {
    let mut interpreter = Interpreter::new(TestEnvironment::new());
    interpreter.set_strategy(Strategy::CallByName);
    interpreter.set_church_num_enabled(true);
    interpreter.set("strategy", "normal").unwrap();
    let error = interpreter.set("numerals", "perhaps").unwrap_err();
    assert_eq!(error.to_string(), "Set Value Error: unknown value 'perhaps'");
    let error = interpreter.set("speed", "fast").unwrap_err();
    assert_eq!(error.to_string(), "Set Key Error: unknown key 'speed'");
    assert!(interpreter.env().out.is_empty());
    assert!(interpreter.env().err.is_empty());
    test_statement(&mut interpreter, "a (b c)", "a (b c)");
    assert!(interpreter.env().out.is_empty());
}

#[test]
fn a_macro_that_cannot_be_applied_says_why() {
    let mut interpreter = Interpreter::new(TestEnvironment::new());
    let error = interpreter.interpret_line("!alphaeq (!macros) x").unwrap_err();
    assert_eq!(
        error.to_string(),
        "Not supported: macro alphaeq cannot work on a term with a macro left in it"
    );
    let error = interpreter.interpret_line("f (!reduce a b)").unwrap_err();
    assert_eq!(
        error.to_string(),
        "Macro Argument Error: macro reduce expects 1 arguments, but 2 were given"
    );
    let error = interpreter.include_file("nowhere".to_string()).unwrap_err();
    assert_eq!(error.to_string(), "File Error: unable to open file 'nowhere' ");
}
