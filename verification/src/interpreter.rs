use std::rc::Rc;
use vstd::prelude::*;
use vstd::string::StringExecFns;
use crate::environment::Environment;
use crate::error::{LashError, LashErrorType, LashResult};
use crate::grammar::{one_statement, statements_at, DirectiveModel, StatementModel};
use crate::lambda::{registry_view, store_named, terms_view, LambdaNode, LambdaTree, NamedTerm};
use crate::macros::{expands, expands_by, stuck, stuck_by, Expansion, Stuck};
use crate::strategy::lines_view;
use crate::parsing::{models_of, parse_statement, parse_statements, Statement};
use crate::stdlib::STD;
use crate::strategy::Strategy;
use crate::term::{lemma_link_invocation_free, registry_find, Term};
use crate::text::{same_text, Name};

verus! {

/// An order to the interpreter itself.
#[derive(Debug)]
pub enum InterpreterDirective {
    /// Print a message.
    Echo(String),
    /// Interpret a file.
    Include(String),
    /// Set the option named first to the value named second.
    SetOption(String, String),
    /// Interpret the standard definitions.
    UseStd,
}

impl InterpreterDirective {
    /// What the directive says.
    pub open spec fn model(&self) -> DirectiveModel {
        match self {
            InterpreterDirective::Echo(msg) => DirectiveModel::Echo(msg@),
            InterpreterDirective::SetOption(key, value) => DirectiveModel::SetOption(key@, value@),
            InterpreterDirective::Include(file) => DirectiveModel::Include(file@),
            InterpreterDirective::UseStd => DirectiveModel::UseStd,
        }
    }

    /// The directive as it is written.
    pub open spec fn shown(&self) -> Seq<char> {
        match self {
            InterpreterDirective::Echo(msg) => "@echo \""@ + msg@ + "\""@,
            InterpreterDirective::SetOption(key, value) => "@set "@ + key@ + " "@ + value@,
            InterpreterDirective::Include(file) => "@include \""@ + file@ + "\""@,
            InterpreterDirective::UseStd => "@usestd"@,
        }
    }

    /// The directive as it is written.
    pub fn to_string(&self) -> (r: String)
        ensures
            r@ == self.shown(),
    {
        match self {
            InterpreterDirective::Echo(msg) => {
                let mut s = String::from_str("@echo \"");
                s.append(msg.as_str());
                s.append("\"");
                s
            },
            InterpreterDirective::SetOption(key, value) => {
                let mut s = String::from_str("@set ");
                s.append(key.as_str());
                s.append(" ");
                s.append(value.as_str());
                s
            },
            InterpreterDirective::Include(file) => {
                let mut s = String::from_str("@include \"");
                s.append(file.as_str());
                s.append("\"");
                s
            },
            InterpreterDirective::UseStd => String::from_str("@usestd"),
        }
    }
}

/// How deep files may include files, the standard definitions counted as a
/// file.
pub const MAX_NESTING: usize = 64;

/// The interpreter: the terms that have been given names, the options that
/// have been set, and the environment that it reads from and writes to.
pub struct Interpreter<E: Environment> {
    church_num_enabled: bool,
    named_terms: Vec<Rc<NamedTerm>>,
    strategy: Strategy,
    env: E,
    nesting: usize,
}

/// The truth value that `value` names: `true` or `false`.
pub open spec fn spec_parse_bool(value: Seq<char>) -> Option<bool> {
    if value == "true"@ {
        Some(true)
    } else if value == "false"@ {
        Some(false)
    } else {
        None
    }
}

/// The truth value that `value` names.
fn parse_bool(value: &str) -> (r: Option<bool>)
    ensures
        r == spec_parse_bool(value@),
{
    if same_text(value, "true") {
        Some(true)
    } else if same_text(value, "false") {
        Some(false)
    } else {
        None
    }
}

impl LambdaTree {
    /// Carries out the macro invocations in the term, innermost first, and
    /// puts what each yields in its place; what they print goes to the
    /// standard output of the interpreter's environment. A term without
    /// invocations comes back as it is, and the environment is not touched.
    /// The first invocation that cannot be applied to what its arguments
    /// became ends it, with the error of the macro.
    pub fn apply_macros<E: Environment>(&self, interpreter: &mut Interpreter<E>) -> (r: LashResult<Self>)
        ensures
            final(interpreter).unchanged_but_env(old(interpreter)),
            match r {
                Ok(out) => expands(old(interpreter).spec_strategy(), self@, out@),
                Err(e) => stuck(old(interpreter).spec_strategy(), self@, (e.kind(), e.text())),
            },
            self@.invocation_free() ==> r is Ok && r->Ok_0@ == self@ && final(interpreter).spec_env() == old(interpreter).spec_env(),
    {
        match self.expand(interpreter) {
            Ok((out, w)) => Ok(out),
            Err((e, w)) => Err(e),
        }
    }

    /// Carries out the macro invocations in the term, and tells how.
    #[verifier::loop_isolation(false)]
    fn expand<E: Environment>(&self, interpreter: &mut Interpreter<E>) -> (r: Result<
        (Self, Ghost<Expansion>),
        (LashError, Ghost<Stuck>),
    >)
        ensures
            final(interpreter).unchanged_but_env(old(interpreter)),
            match r {
                Ok((out, w)) => expands_by(w@, old(interpreter).spec_strategy(), self@, out@),
                Err((e, w)) => stuck_by(
                    w@,
                    old(interpreter).spec_strategy(),
                    self@,
                    (e.kind(), e.text()),
                ),
            },
            self@.invocation_free() ==> r is Ok && r->Ok_0.0@ == self@ && final(interpreter).spec_env() == old(interpreter).spec_env(),
        decreases self@.size(),
    {
        let ghost strategy = interpreter.spec_strategy();
        match self.node() {
            LambdaNode::Abstraction(var, term) => {
                match term.expand(interpreter) {
                    Ok((inner, w)) => Ok(
                        (
                            Self::new_abstraction(var.clone(), inner),
                            Ghost(Expansion::Abs(Box::new(w@))),
                        ),
                    ),
                    Err((e, w)) => Err((e, Ghost(Stuck::Abs(Box::new(w@))))),
                }
            },
            LambdaNode::Application(left_term, right_term) => {
                let (left, wl) = match left_term.expand(interpreter) {
                    Ok(done) => done,
                    Err((e, w)) => {
                        return Err((e, Ghost(Stuck::Left(Box::new(w@)))));
                    },
                };
                match right_term.expand(interpreter) {
                    Ok((right, wr)) => Ok(
                        (
                            Self::new_application(left, right),
                            Ghost(Expansion::App(Box::new(wl@), Box::new(wr@))),
                        ),
                    ),
                    Err((e, w)) => Err((e, Ghost(Stuck::Right(wl@, left@, Box::new(w@))))),
                }
            },
            LambdaNode::Variable(_) => Ok((self.clone(), Ghost(Expansion::Leaf))),
            LambdaNode::Macro(m, terms) => {
                let ghost args = self@->Deferred_1;
                let time_start = interpreter.env.now();
                let mut evaluated: Vec<LambdaTree> = Vec::new();
                let ghost mut ws: Seq<Expansion> = Seq::empty();
                let mut i: usize = 0;
                while i < terms.len()
                    invariant
                        i <= terms.len(),
                        evaluated.len() == i,
                        ws.len() == i,
                        interpreter.unchanged_but_env(old(interpreter)),
                        forall|j: int|
                            0 <= j < i ==> expands_by(
                                ws[j],
                                strategy,
                                #[trigger] args[j],
                                evaluated[j]@,
                            ),
                    decreases terms.len() - i,
                {
                    proof {
                        assert(args[i as int] == terms[i as int]@);
                        self@.lemma_arg_size(i as int);
                    }
                    let ghost became = terms_view(evaluated@);
                    match terms[i].expand(interpreter) {
                        Ok((t, w)) => {
                            evaluated.push(t);
                            proof {
                                ws = ws.push(w@);
                            }
                        },
                        Err((e, w)) => {
                            proof {
                                assert forall|j: int| 0 <= j < ws.len() implies expands_by(
                                    ws[j],
                                    strategy,
                                    #[trigger] args[j],
                                    became[j],
                                ) by {}
                            }
                            return Err((e, Ghost(Stuck::Arg(ws, became, Box::new(w@)))));
                        },
                    }
                    i += 1;
                }
                let duration = interpreter.env.elapsed(time_start);
                let ghost became = terms_view(evaluated@);
                proof {
                    assert forall|j: int| 0 <= j < args.len() implies expands_by(
                        ws[j],
                        strategy,
                        #[trigger] args[j],
                        became[j],
                    ) by {}
                }
                let (term, lines) = match m.apply(interpreter.strategy, evaluated, duration) {
                    Ok(done) => done,
                    Err(e) => {
                        return Err((e, Ghost(Stuck::Here(ws, became))));
                    },
                };
                let ghost printed = lines_view(lines@);
                let mut k: usize = 0;
                while k < lines.len()
                    invariant
                        k <= lines.len(),
                        interpreter.unchanged_but_env(old(interpreter)),
                    decreases lines.len() - k,
                {
                    interpreter.env.stdout(lines[k].as_str());
                    k += 1;
                }
                Ok((term, Ghost(Expansion::Invoke(ws, became, duration, printed))))
            },
            LambdaNode::Named(_) => Ok((self.clone(), Ghost(Expansion::Leaf))),
            LambdaNode::ChurchNum(_) => Ok((self.clone(), Ghost(Expansion::Leaf))),
        }
    }
}

/// What the environment gave for a file: its text, or the error that kept
/// the file from being loaded.
pub open spec fn loaded_text(loaded: LashResult<String>) -> Result<Seq<char>, LashError> {
    match loaded {
        Ok(content) => Ok(content@),
        Err(e) => Err(e),
    }
}

impl<E: Environment> Interpreter<E> {
    /// Whether numerals may stand in terms.
    pub closed spec fn numerals(&self) -> bool {
        self.church_num_enabled
    }

    /// The strategy by which terms are reduced.
    pub closed spec fn spec_strategy(&self) -> Strategy {
        self.strategy
    }

    /// The terms that have been given names.
    pub closed spec fn registry(&self) -> Seq<(Name, Term)> {
        registry_view(self.named_terms@)
    }

    /// How many files deep an inclusion may still go.
    pub closed spec fn depth_left(&self) -> nat {
        self.nesting as nat
    }

    /// Nothing but the environment differs from `other`.
    pub open spec fn unchanged_but_env(&self, other: &Self) -> bool {
        &&& self.numerals() == other.numerals()
        &&& self.spec_strategy() == other.spec_strategy()
        &&& self.registry() == other.registry()
        &&& self.depth_left() == other.depth_left()
    }

    /// An interpreter that knows no names, reduces in applicative order and
    /// takes no numerals.
    pub fn new(env: E) -> (r: Interpreter<E>)
        ensures
            !r.numerals(),
            r.spec_strategy() == Strategy::Applicative,
            r.registry().len() == 0,
            r.depth_left() == MAX_NESTING,
    {
        Interpreter {
            church_num_enabled: false,
            named_terms: Vec::new(),
            strategy: Strategy::default(),
            env,
            nesting: MAX_NESTING,
        }
    }

    fn apply_directive(&mut self, directive: InterpreterDirective) -> (r: LashResult<()>)
        ensures
            final(self).depth_left() == old(self).depth_left(),
            match directive.model() {
                DirectiveModel::Echo(_) => r is Ok && final(self).unchanged_but_env(old(self)),
                DirectiveModel::SetOption(key, value) => old(self).sets(
                    final(self),
                    key,
                    value,
                    match r {
                        Ok(_) => None,
                        Err(e) => Some(e),
                    },
                ),
                DirectiveModel::Include(_) => if old(self).depth_left() == 0 {
                    Self::too_deep(r) && *final(self) == *old(self)
                } else {
                    exists|loaded: LashResult<String>|
                        old(self).included(final(self), #[trigger] loaded_text(loaded), r)
                },
                DirectiveModel::UseStd => if old(self).depth_left() == 0 {
                    Self::too_deep(r) && *final(self) == *old(self)
                } else {
                    old(self).within(final(self), STD@, r)
                },
            },
        decreases old(self).depth_left(), 1nat,
    {
        match directive {
            InterpreterDirective::Echo(msg) => {
                self.env.stdout(msg.as_str());
                Ok(())
            },
            InterpreterDirective::SetOption(key, value) => self.set(key.as_str(), value.as_str()),
            InterpreterDirective::Include(file) => self.include_file(file),
            InterpreterDirective::UseStd => self.interpret_std(),
        }
    }

    /// The interpreter with `depth` files still to go down, and all else as
    /// it is.
    pub closed spec fn at_depth(&self, depth: nat) -> Self {
        Interpreter {
            church_num_enabled: self.church_num_enabled,
            named_terms: self.named_terms,
            strategy: self.strategy,
            env: self.env,
            nesting: depth as usize,
        }
    }

    /// `r` is the refusal to go one file deeper than the interpreter may.
    pub open spec fn too_deep(r: LashResult<()>) -> bool {
        r matches Err(e) && e.kind() == LashErrorType::NotSupportedError && e.text()
            == "files are included too deep"@
    }

    /// The text `content` was interpreted one file down from this
    /// interpreter: its statements ran, one after the other, from the
    /// interpreter as it is but with one file less to go down, and `post` is
    /// what that left, with the depth as it was before. Nothing ran if a
    /// line of the text is no statement.
    pub open spec fn within(&self, post: &Self, content: Seq<char>, r: LashResult<()>) -> bool
        decreases self.depth_left(), 0nat,
    {
        if self.depth_left() > 0 {
            match statements_at(content, 0) {
                Some(models) => exists|mid: Self|
                    self.at_depth((self.depth_left() - 1) as nat).runs(&mid, models, r) && *post
                        == #[trigger] mid.at_depth(self.depth_left()),
                None => r matches Err(e) && (e.kind() == LashErrorType::SyntaxError || e.kind()
                    == LashErrorType::UnknownMacroError) && post.unchanged_but_env(self),
            }
        } else {
            false
        }
    }

    /// A file was included whose loading came to `loaded`: a failure to load
    /// is handed on, and the interpreter stays as it is; what was loaded is
    /// interpreted one file down.
    pub open spec fn included(
        &self,
        post: &Self,
        loaded: Result<Seq<char>, LashError>,
        r: LashResult<()>,
    ) -> bool
        decreases self.depth_left(), 1nat,
    {
        match loaded {
            Ok(content) => self.within(post, content, r),
            Err(e) => r == Err::<(), LashError>(e) && *post == *self,
        }
    }

    /// Interprets the file `file`, which the environment loads. Files may
    /// include files `MAX_NESTING` deep; one file deeper is refused, and
    /// nothing changes.
    pub fn include_file(&mut self, file: String) -> (r: LashResult<()>)
        ensures
            final(self).depth_left() == old(self).depth_left(),
            if old(self).depth_left() == 0 {
                Self::too_deep(r) && *final(self) == *old(self)
            } else {
                exists|loaded: LashResult<String>|
                    old(self).included(final(self), #[trigger] loaded_text(loaded), r)
            },
        decreases old(self).depth_left(), 0nat,
    {
        if self.nesting == 0 {
            return Err(
                LashError::new_not_supported_error(String::from_str("files are included too deep")),
            );
        }
        let loaded = self.env.load(file.as_str());
        let ghost came = loaded;
        let contents = match loaded {
            Ok(contents) => contents,
            Err(e) => {
                proof {
                    assert(old(self).included(&*self, loaded_text(came), Err::<(), LashError>(e)));
                }
                return Err(e);
            },
        };
        self.nesting = self.nesting - 1;
        let ghost down = *self;
        let result = self.interpret_contents(contents.as_str());
        let ghost mid = *self;
        self.nesting = self.nesting + 1;
        proof {
            assert(down == old(self).at_depth((old(self).depth_left() - 1) as nat));
            assert(*self == mid.at_depth(old(self).depth_left()));
            if statements_at(contents@, 0) is Some {
                assert(down.runs(&mid, statements_at(contents@, 0)->0, result));
            }
            assert(old(self).within(&*self, contents@, result));
            assert(old(self).included(&*self, loaded_text(came), result));
        }
        result
    }

    /// The statement that says `said` was interpreted by the interpreter
    /// `before`, which may go `depth` files down, and came to `result` and the
    /// interpreter `after`.
    pub open spec fn stepped(
        depth: nat,
        before: &Self,
        after: &Self,
        said: StatementModel,
        result: LashResult<Statement>,
    ) -> bool
        decreases depth, 3nat,
    {
        before.depth_left() == depth && before.interpreted(after, said, result)
    }

    /// The statements that say `models` were interpreted one after the other,
    /// from this interpreter on, up to the first that failed: `states`
    /// are the interpreters before and after each, none of which may go
    /// deeper or less deep than this one, `results` what each came to; `post` is
    /// the last interpreter, and `r` tells whether all were interpreted or
    /// which error ended it.
    pub open spec fn ran(
        &self,
        post: &Self,
        models: Seq<StatementModel>,
        r: LashResult<()>,
        states: Seq<Self>,
        results: Seq<LashResult<Statement>>,
    ) -> bool
        decreases self.depth_left(), 4nat,
    {
        &&& results.len() <= models.len()
        &&& states.len() == results.len() + 1
        &&& states[0] == *self
        &&& states.last() == *post
        &&& forall|i: int|
            #![trigger results[i]]
            0 <= i < results.len() ==> Self::stepped(
                self.depth_left(),
                &states[i],
                &states[i + 1],
                models[i],
                results[i],
            )
        &&& forall|i: int| 0 <= i < results.len() - 1 ==> (#[trigger] results[i]) is Ok
        &&& match r {
            Ok(_) => results.len() == models.len() && (results.len() > 0
                ==> results.last() is Ok),
            Err(e) => results.len() > 0 && results.last() == Err::<Statement, LashError>(e),
        }
    }

    /// The statements that say `models` were interpreted one after the other,
    /// from this interpreter on, up to the first that failed; `post` is the
    /// interpreter afterwards, and `r` tells whether all were interpreted or
    /// which error ended it.
    pub open spec fn runs(&self, post: &Self, models: Seq<StatementModel>, r: LashResult<()>) -> bool
        decreases self.depth_left(), 5nat,
    {
        exists|states: Seq<Self>, results: Seq<LashResult<Statement>>|
            #![trigger states.len(), results.len()]
            self.ran(post, models, r, states, results)
    }

    /// Interprets `content`, a statement to a line, up to the first statement
    /// that fails. Nothing is interpreted if a line of it is no statement.
    pub fn interpret_contents(&mut self, content: &str) -> (r: LashResult<()>)
        ensures
            final(self).depth_left() == old(self).depth_left(),
            match statements_at(content@, 0) {
                Some(models) => old(self).runs(final(self), models, r),
                None => r matches Err(e) && (e.kind() == LashErrorType::SyntaxError || e.kind()
                    == LashErrorType::UnknownMacroError) && final(self).unchanged_but_env(
                    old(self),
                ),
            },
        decreases old(self).depth_left(), 3nat,
    {
        let mut statements = parse_statements(content)?;
        let ghost models = models_of(statements@);
        let ghost mut states: Seq<Self> = seq![*self];
        let ghost mut results: Seq<LashResult<Statement>> = Seq::empty();
        assert(models.subrange(0, models.len() as int) =~= models);
        while statements.len() > 0
            invariant
                self.depth_left() == old(self).depth_left(),
                statements_at(content@, 0) == Some(models),
                results.len() + statements.len() == models.len(),
                models_of(statements@) == models.subrange(results.len() as int, models.len() as int),
                states.len() == results.len() + 1,
                states[0] == *old(self),
                states.last() == *self,
                forall|i: int|
                    #![trigger results[i]]
                    0 <= i < results.len() ==> Self::stepped(
                        old(self).depth_left(),
                        &states[i],
                        &states[i + 1],
                        models[i],
                        results[i],
                    ),
                forall|i: int| 0 <= i < results.len() ==> (#[trigger] results[i]) is Ok,
            decreases statements.len(),
        {
            let ghost before = models_of(statements@);
            let ghost waiting = statements@;
            let ghost done = results.len() as int;
            let statement = statements.remove(0);
            proof {
                assert(statement.model() == before[0]);
                assert(before[0] == models[done]);
                assert forall|j: int| 0 <= j < statements@.len() implies models_of(statements@)[j]
                    == models.subrange(done + 1, models.len() as int)[j] by {
                    assert(statements@[j] == waiting[j + 1]);
                    assert(before[j + 1] == waiting[j + 1].model());
                }
                assert(models_of(statements@) =~= models.subrange(done + 1, models.len() as int));
            }
            let result = self.interpret_statement(statement);
            proof {
                let earlier = states;
                let known = results;
                results = results.push(result);
                states = states.push(*self);
                assert forall|i: int| #![trigger results[i]] 0 <= i < results.len() implies Self::stepped(
                    old(self).depth_left(),
                    &states[i],
                    &states[i + 1],
                    models[i],
                    results[i],
                ) by {
                    if i < done {
                        assert(Self::stepped(
                            old(self).depth_left(),
                            &earlier[i],
                            &earlier[i + 1],
                            models[i],
                            known[i],
                        ));
                    }
                }
            }
            match result {
                Ok(_) => {},
                Err(e) => {
                    proof {
                        assert(old(self).ran(&*self, models, Err::<(), LashError>(e), states, results));
                        assert(old(self).runs(&*self, models, Err::<(), LashError>(e)));
                    }
                    return Err(e);
                },
            }
        }
        proof {
            assert(old(self).ran(&*self, models, Ok::<(), LashError>(()), states, results));
            assert(old(self).runs(&*self, models, Ok::<(), LashError>(())));
        }
        Ok(())
    }

    /// What processing the term `t` may come to: with numerals switched off
    /// and one in the term, the error that says so; else, for a term without
    /// macro invocations, the term linked to the named terms; else what the
    /// linked term becomes when its macros are carried out, or the error of
    /// the first invocation that cannot be applied to what its arguments
    /// became. An error is given by its kind and what it says.
    pub open spec fn processes(
        &self,
        t: Term,
        out: Result<Term, (LashErrorType, Seq<char>)>,
    ) -> bool {
        if !self.numerals() && t.has_nums() {
            out == Err::<Term, (LashErrorType, Seq<char>)>(
                (LashErrorType::ChurchNumError, "church numerals disabled"@),
            )
        } else if t.invocation_free() {
            out == Ok::<Term, (LashErrorType, Seq<char>)>(t.link(self.registry(), Seq::empty()))
        } else {
            match out {
                Ok(term) => expands(
                    self.spec_strategy(),
                    t.link(self.registry(), Seq::empty()),
                    term,
                ),
                Err(f) => stuck(self.spec_strategy(), t.link(self.registry(), Seq::empty()), f),
            }
        }
    }

    /// What setting the option `key` to `value` comes to, whether it succeeded
    /// and the interpreter afterwards: `strategy` takes the name of a
    /// strategy, `numerals` takes `true` or `false`, and there is no other
    /// option.
    pub open spec fn sets(&self, post: &Self, key: Seq<char>, value: Seq<char>, failed: Option<LashError>) -> bool {
        &&& post.registry() == self.registry()
        &&& post.depth_left() == self.depth_left()
        &&& post.spec_env() == self.spec_env()
        &&& if key == "strategy"@ {
            match Strategy::spec_from_str(value) {
                Ok(strat) => failed is None && post.spec_strategy() == strat && post.numerals()
                    == self.numerals(),
                Err(_) => Self::bad_value(failed, value) && post.unchanged_but_env(self),
            }
        } else if key == "numerals"@ {
            match spec_parse_bool(value) {
                Some(b) => failed is None && post.numerals() == b && post.spec_strategy()
                    == self.spec_strategy(),
                None => Self::bad_value(failed, value) && post.unchanged_but_env(self),
            }
        } else {
            &&& failed is Some
            &&& failed->0.kind() == LashErrorType::SetKeyError
            &&& failed->0.text() == "unknown key '"@ + key + "'"@
            &&& post.unchanged_but_env(self)
        }
    }

    /// `failed` is the error for a value that the option does not take.
    pub open spec fn bad_value(failed: Option<LashError>, value: Seq<char>) -> bool {
        &&& failed is Some
        &&& failed->0.kind() == LashErrorType::SetValueError
        &&& failed->0.text() == "unknown value '"@ + value + "'"@
    }

    /// What interpreting a statement that says `said` comes to: the result `r`
    /// and the interpreter `post` afterwards. A statement that says nothing
    /// changes nothing. A term is processed, and nothing but the environment
    /// changes. An assignment processes its term and stores it under its
    /// name. A message is printed; an option is set. A file that is included
    /// is loaded, and it and the standard definitions are interpreted one
    /// file down; one file deeper than the interpreter may go is refused, and
    /// nothing changes.
    pub open spec fn interpreted(&self, post: &Self, said: StatementModel, r: LashResult<Statement>) -> bool
        decreases self.depth_left(), 2nat,
    {
        match said {
            StatementModel::Comment => r is Ok && r->Ok_0.model() is Comment
                && post.unchanged_but_env(self),
            StatementModel::Lambda(t) => post.unchanged_but_env(self) && match r {
                Ok(st) => st.model() is Lambda && self.processes(
                    t,
                    Ok::<Term, (LashErrorType, Seq<char>)>(st.model()->Lambda_0),
                ),
                Err(e) => self.processes(t, Err::<Term, (LashErrorType, Seq<char>)>((e.kind(), e.text()))),
            },
            StatementModel::Assignment(name, t) => match r {
                Ok(st) => st.model() is Assignment && st.model()->Assignment_0 == name
                    && self.processes(t, Ok::<Term, (LashErrorType, Seq<char>)>(st.model()->Assignment_1))
                    && registry_find(post.registry(), name) == Some(st.model()->Assignment_1)
                    && (forall|other: Name|
                    other != name ==> registry_find(post.registry(), other) == registry_find(
                        self.registry(),
                        other,
                    )) && post.numerals() == self.numerals() && post.spec_strategy()
                    == self.spec_strategy(),
                Err(e) => post.unchanged_but_env(self) && self.processes(
                    t,
                    Err::<Term, (LashErrorType, Seq<char>)>((e.kind(), e.text())),
                ),
            },
            StatementModel::Directive(d) => (r matches Ok(st) ==> st.model() == said) && match d {
                DirectiveModel::Echo(_) => r is Ok && post.unchanged_but_env(self),
                DirectiveModel::SetOption(key, value) => self.sets(
                    post,
                    key,
                    value,
                    match r {
                        Ok(_) => None,
                        Err(e) => Some(e),
                    },
                ),
                DirectiveModel::Include(_) => if self.depth_left() == 0 {
                    Self::too_deep(Self::outcome(r)) && *post == *self
                } else {
                    exists|loaded: LashResult<String>|
                        self.included(post, #[trigger] loaded_text(loaded), Self::outcome(r))
                },
                DirectiveModel::UseStd => if self.depth_left() == 0 {
                    Self::too_deep(Self::outcome(r)) && *post == *self
                } else {
                    self.within(post, STD@, Self::outcome(r))
                },
            },
        }
    }

    /// Whether the statement was interpreted, or the error that ended it.
    pub open spec fn outcome(r: LashResult<Statement>) -> LashResult<()> {
        match r {
            Ok(_) => Ok(()),
            Err(e) => Err(e),
        }
    }

    /// Interprets the statement, as `interpret_line` does once it has read
    /// it: a term is linked to the named terms and its macros are carried
    /// out; an assignment stores the term so obtained under its name; a
    /// directive is obeyed. It returns the statement, with the term that was
    /// obtained in place of the one that was written.
    pub fn interpret_statement(&mut self, statement: Statement) -> (r: LashResult<Statement>)
        ensures
            final(self).depth_left() == old(self).depth_left(),
            old(self).interpreted(final(self), statement.model(), r),
        decreases old(self).depth_left(), 2nat,
    {
        match statement {
            Statement::Assignment(name, term) => {
                let term = self.process_lambda_term(term)?;
                store_named(&mut self.named_terms, name.clone(), term.clone());
                Ok(Statement::Assignment(name, term))
            },
            Statement::Comment => Ok(Statement::Comment),
            Statement::Lambda(term) => {
                let term = self.process_lambda_term(term)?;
                Ok(Statement::Lambda(term))
            },
            Statement::Directive(directive) => {
                let shown = directive.duplicate();
                self.apply_directive(directive)?;
                Ok(Statement::Directive(shown))
            },
        }
    }

    /// Reads `line` as one statement and interprets it. A line that is no
    /// statement is an error and changes nothing.
    pub fn interpret_line(&mut self, line: &str) -> (r: LashResult<Statement>)
        ensures
            final(self).depth_left() == old(self).depth_left(),
            match one_statement(line@) {
                Some(said) => old(self).interpreted(final(self), said, r),
                None => r matches Err(e) && (e.kind() == LashErrorType::SyntaxError || e.kind()
                    == LashErrorType::UnknownMacroError) && final(self).unchanged_but_env(
                    old(self),
                ),
            },
    {
        let statement = parse_statement(line)?;
        self.interpret_statement(statement)
    }

    /// Interprets the standard definitions, as a file that is included: one
    /// file down. One file deeper than the interpreter may go is refused,
    /// and nothing changes.
    pub fn interpret_std(&mut self) -> (r: LashResult<()>)
        ensures
            final(self).depth_left() == old(self).depth_left(),
            if old(self).depth_left() == 0 {
                Self::too_deep(r) && *final(self) == *old(self)
            } else {
                old(self).within(final(self), STD@, r)
            },
        decreases old(self).depth_left(), 0nat,
    {
        if self.nesting == 0 {
            return Err(
                LashError::new_not_supported_error(String::from_str("files are included too deep")),
            );
        }
        self.nesting = self.nesting - 1;
        let ghost down = *self;
        let result = self.interpret_contents(STD);
        let ghost mid = *self;
        self.nesting = self.nesting + 1;
        proof {
            assert(down == old(self).at_depth((old(self).depth_left() - 1) as nat));
            assert(*self == mid.at_depth(old(self).depth_left()));
            if statements_at(STD@, 0) is Some {
                assert(down.runs(&mid, statements_at(STD@, 0)->0, result));
            }
        }
        result
    }

    /// Prepares a term as it was read: refuses it if it holds a numeral while
    /// numerals are switched off, links it to the named terms, and carries out
    /// its macros.
    fn process_lambda_term(&mut self, term: LambdaTree) -> (r: LashResult<LambdaTree>)
        ensures
            final(self).unchanged_but_env(old(self)),
            old(self).processes(
                term@,
                match r {
                    Ok(out) => Ok::<Term, (LashErrorType, Seq<char>)>(out@),
                    Err(e) => Err::<Term, (LashErrorType, Seq<char>)>((e.kind(), e.text())),
                },
            ),
    {
        if !self.church_num_enabled && term.has_church_nums() {
            return Err(LashError::new_church_num_error());
        }
        let with_named = term.set_named_terms(&self.named_terms);
        proof {
            if term@.invocation_free() {
                lemma_link_invocation_free(term@, self.registry(), Seq::empty());
            }
        }
        let with_macros = with_named.apply_macros(self)?;
        Ok(with_macros)
    }

    /// Sets the option `key` to `value`: `strategy` to the strategy that
    /// `value` names, `numerals` to `true` or `false`.
    pub fn set(&mut self, key: &str, value: &str) -> (r: LashResult<()>)
        ensures
            old(self).sets(
                final(self),
                key@,
                value@,
                match r {
                    Ok(_) => None,
                    Err(e) => Some(e),
                },
            ),
    {
        if same_text(key, "strategy") {
            match Strategy::from_str(value) {
                Ok(strat) => self.set_strategy(strat),
                Err(_) => {
                    return Err(LashError::new_set_value_error(value));
                },
            }
        } else if same_text(key, "numerals") {
            match parse_bool(value) {
                Some(b) => self.set_church_num_enabled(b),
                None => {
                    return Err(LashError::new_set_value_error(value));
                },
            }
        } else {
            return Err(LashError::new_set_key_error(key));
        }
        Ok(())
    }

    /// Switches numerals on or off.
    pub fn set_church_num_enabled(&mut self, b: bool)
        ensures
            final(self).numerals() == b,
            final(self).spec_strategy() == old(self).spec_strategy(),
            final(self).registry() == old(self).registry(),
            final(self).depth_left() == old(self).depth_left(),
            final(self).spec_env() == old(self).spec_env(),
    {
        self.church_num_enabled = b;
    }

    /// Sets the strategy by which terms are reduced.
    pub fn set_strategy(&mut self, strategy: Strategy)
        ensures
            final(self).spec_strategy() == strategy,
            final(self).numerals() == old(self).numerals(),
            final(self).registry() == old(self).registry(),
            final(self).depth_left() == old(self).depth_left(),
            final(self).spec_env() == old(self).spec_env(),
    {
        self.strategy = strategy;
    }

    /// The strategy by which terms are reduced.
    pub fn strategy(&self) -> (r: Strategy)
        ensures
            r == self.spec_strategy(),
    {
        self.strategy
    }

    /// The environment that the interpreter reads from and writes to.
    pub closed spec fn spec_env(&self) -> E {
        self.env
    }

    /// The environment that the interpreter reads from and writes to.
    pub fn env(&self) -> (r: &E)
        ensures
            *r == self.spec_env(),
    {
        &self.env
    }

    /// The environment, to write to: what is done to it through the
    /// reference is done to the environment of the interpreter, and nothing
    /// else of the interpreter changes.
    pub fn env_mut(&mut self) -> (r: &mut E)
        ensures
            *r == old(self).spec_env(),
            final(self).spec_env() == *final(r),
            final(self).unchanged_but_env(old(self)),
    {
        &mut self.env
    }
}

impl InterpreterDirective {
    /// A copy of the directive.
    pub fn duplicate(&self) -> (r: Self)
        ensures
            r.model() == self.model(),
            r.shown() == self.shown(),
    {
        match self {
            InterpreterDirective::Echo(msg) => InterpreterDirective::Echo(msg.clone()),
            InterpreterDirective::SetOption(key, value) => InterpreterDirective::SetOption(
                key.clone(),
                value.clone(),
            ),
            InterpreterDirective::Include(file) => InterpreterDirective::Include(file.clone()),
            InterpreterDirective::UseStd => InterpreterDirective::UseStd,
        }
    }
}

} // verus!
