use vstd::prelude::*;
use vstd::string::StringExecFns;
use crate::error::{LashError, LashErrorType, LashResult};
use crate::lambda::{terms_view, LambdaTree};
use crate::strategy::{lemma_shows_steps_push, lines_view, shows_steps, Strategy};
use crate::term::Term;
use crate::text::{decimal, decimal_string, pad_right, padded, starts_with};
use crate::typing::{infer, infer_failure, principal, Type};

verus! {

/// The verbs that a term can invoke with `!name`.
#[derive(Debug, Clone, Copy, PartialEq, Eq, Structural)]
pub enum Macro {
    AlphaEq,
    CNormalize,
    DeBruijn,
    Debug,
    Macros,
    Normalize,
    Reduce,
    Resolve,
    Time,
    Type,
    VNormalize,
    VReduce,
}

impl Macro {
    /// The name by which a term invokes the macro.
    pub open spec fn spec_name(self) -> Seq<char> {
        match self {
            Macro::AlphaEq => "alphaeq"@,
            Macro::CNormalize => "cnormalize"@,
            Macro::DeBruijn => "debruijn"@,
            Macro::Debug => "debug"@,
            Macro::Macros => "macros"@,
            Macro::Normalize => "normalize"@,
            Macro::Reduce => "reduce"@,
            Macro::Resolve => "resolve"@,
            Macro::Time => "time"@,
            Macro::Type => "type"@,
            Macro::VNormalize => "vnormalize"@,
            Macro::VReduce => "vreduce"@,
        }
    }

    /// The name by which a term invokes the macro.
    pub fn name(&self) -> (r: &'static str)
        ensures
            r@ == self.spec_name(),
    {
        match self {
            Macro::AlphaEq => "alphaeq",
            Macro::CNormalize => "cnormalize",
            Macro::DeBruijn => "debruijn",
            Macro::Debug => "debug",
            Macro::Macros => "macros",
            Macro::Normalize => "normalize",
            Macro::Reduce => "reduce",
            Macro::Resolve => "resolve",
            Macro::Time => "time",
            Macro::Type => "type",
            Macro::VNormalize => "vnormalize",
            Macro::VReduce => "vreduce",
        }
    }
}

/// Every macro, in the order in which they are listed.
pub open spec fn all_macros() -> Seq<Macro> {
    seq![
        Macro::AlphaEq,
        Macro::CNormalize,
        Macro::DeBruijn,
        Macro::Debug,
        Macro::Macros,
        Macro::Normalize,
        Macro::Reduce,
        Macro::Resolve,
        Macro::Time,
        Macro::Type,
        Macro::VNormalize,
        Macro::VReduce,
    ]
}

/// Every macro is listed.
pub proof fn lemma_all_macros_complete(m: Macro)
    ensures
        all_macros().contains(m),
{
    let i: int = match m {
        Macro::AlphaEq => 0,
        Macro::CNormalize => 1,
        Macro::DeBruijn => 2,
        Macro::Debug => 3,
        Macro::Macros => 4,
        Macro::Normalize => 5,
        Macro::Reduce => 6,
        Macro::Resolve => 7,
        Macro::Time => 8,
        Macro::Type => 9,
        Macro::VNormalize => 10,
        Macro::VReduce => 11,
    };
    assert(all_macros()[i] == m);
}

impl Macro {
    /// Every macro, in the order in which they are listed.
    pub fn macros() -> (r: Vec<Macro>)
        ensures
            r@ == all_macros(),
    {
        let mut v: Vec<Macro> = Vec::new();
        v.push(Macro::AlphaEq);
        v.push(Macro::CNormalize);
        v.push(Macro::DeBruijn);
        v.push(Macro::Debug);
        v.push(Macro::Macros);
        v.push(Macro::Normalize);
        v.push(Macro::Reduce);
        v.push(Macro::Resolve);
        v.push(Macro::Time);
        v.push(Macro::Type);
        v.push(Macro::VNormalize);
        v.push(Macro::VReduce);
        assert(v@ =~= all_macros());
        v
    }

    /// What the macro does, in a line.
    pub open spec fn spec_help(self) -> Seq<char> {
        match self {
            Macro::AlphaEq => "check for alpha equivalence and return Church-encoded boolean"@,
            Macro::CNormalize => "normalize and show number of reductions performed"@,
            Macro::DeBruijn => "print out DeBruijn form"@,
            Macro::Debug => "print out current term (useful in non-interactive mode)"@,
            Macro::Macros => "print available macros"@,
            Macro::Normalize => "normalize the given term"@,
            Macro::Reduce => "reduce the given term"@,
            Macro::Resolve => "resolve all named terms"@,
            Macro::Time => "time the execution of the macros contained inside the term"@,
            Macro::Type => "try to infer a type for the given term"@,
            Macro::VNormalize => "visually normalize the given term"@,
            Macro::VReduce => "visually reduce the given term"@,
        }
    }

    /// What the macro does, in a line.
    pub fn help(&self) -> (r: &'static str)
        ensures
            r@ == self.spec_help(),
    {
        match self {
            Macro::AlphaEq => "check for alpha equivalence and return Church-encoded boolean",
            Macro::CNormalize => "normalize and show number of reductions performed",
            Macro::DeBruijn => "print out DeBruijn form",
            Macro::Debug => "print out current term (useful in non-interactive mode)",
            Macro::Macros => "print available macros",
            Macro::Normalize => "normalize the given term",
            Macro::Reduce => "reduce the given term",
            Macro::Resolve => "resolve all named terms",
            Macro::Time => "time the execution of the macros contained inside the term",
            Macro::Type => "try to infer a type for the given term",
            Macro::VNormalize => "visually normalize the given term",
            Macro::VReduce => "visually reduce the given term",
        }
    }

    /// The number of arguments that the macro takes.
    pub open spec fn spec_nargs(self) -> nat {
        match self {
            Macro::AlphaEq => 2,
            Macro::Macros => 0,
            _ => 1,
        }
    }

    /// The number of arguments that the macro takes.
    pub fn nargs(&self) -> (r: usize)
        ensures
            r == self.spec_nargs(),
    {
        match self {
            Macro::AlphaEq => 2,
            Macro::CNormalize => 1,
            Macro::DeBruijn => 1,
            Macro::Debug => 1,
            Macro::Macros => 0,
            Macro::Normalize => 1,
            Macro::Reduce => 1,
            Macro::Resolve => 1,
            Macro::Time => 1,
            Macro::Type => 1,
            Macro::VNormalize => 1,
            Macro::VReduce => 1,
        }
    }

    /// The line that lists the macro: its name, filled up to eight characters,
    /// a space and a tab, and what it does.
    pub open spec fn spec_listing(self) -> Seq<char> {
        padded(self.spec_name(), 8) + " \t"@ + self.spec_help()
    }

    /// The lines that list every macro, one each.
    pub fn print_all() -> (r: Vec<String>)
        ensures
            r.len() == all_macros().len(),
            forall|i: int| 0 <= i < r.len() ==> (#[trigger] r[i])@ == all_macros()[i].spec_listing(),
    {
        let all = Self::macros();
        let mut lines: Vec<String> = Vec::new();
        let mut i: usize = 0;
        while i < all.len()
            invariant
                i <= all.len(),
                all@ == all_macros(),
                lines.len() == i,
                forall|j: int| 0 <= j < i ==> (#[trigger] lines[j])@ == all_macros()[j].spec_listing(),
            decreases all.len() - i,
        {
            let m = all[i];
            let mut line = pad_right(m.name(), 8);
            line.append(" \t");
            line.append(m.help());
            lines.push(line);
            i += 1;
        }
        lines
    }

    /// `m` is the one macro whose name begins with `s`.
    pub open spec fn names_only(s: Seq<char>, m: Macro) -> bool {
        &&& s.is_prefix_of(m.spec_name())
        &&& forall|other: Macro| s.is_prefix_of(#[trigger] other.spec_name()) ==> other == m
    }

    /// The macro that `s` names: the one whose name begins with `s`, where
    /// there is exactly one; a name in full names its macro.
    pub fn from_str(s: &str) -> (r: Result<Macro, ()>)
        ensures
            match r {
                Ok(m) => Self::names_only(s@, m),
                Err(_) => forall|m: Macro| !Self::names_only(s@, m),
            },
    {
        let all = Self::macros();
        let mut found: Option<Macro> = None;
        let mut i: usize = 0;
        while i < all.len()
            invariant
                i <= all.len(),
                all@ == all_macros(),
                match found {
                    Some(m) => exists|k: int| 0 <= k < i && all_macros()[k] == m && s@.is_prefix_of(
                        m.spec_name(),
                    ) && forall|j: int|
                        0 <= j < i && s@.is_prefix_of(#[trigger] all_macros()[j].spec_name()) ==> j
                            == k,
                    None => forall|j: int|
                        0 <= j < i ==> !s@.is_prefix_of(#[trigger] all_macros()[j].spec_name()),
                },
            decreases all.len() - i,
        {
            let m = all[i];
            if starts_with(m.name(), s) {
                match found {
                    Some(first) => {
                        proof {
                            assert forall|c: Macro| !Self::names_only(s@, c) by {
                                let k = choose|k: int|
                                    0 <= k < i && all_macros()[k] == first && s@.is_prefix_of(
                                        first.spec_name(),
                                    );
                                lemma_macros_distinct(k, i as int);
                            }
                        }
                        return Err(());
                    },
                    None => {
                        found = Some(m);
                    },
                }
            }
            i += 1;
        }
        match found {
            Some(m) => {
                proof {
                    assert forall|other: Macro|
                        s@.is_prefix_of(#[trigger] other.spec_name()) implies other == m by {
                        lemma_all_macros_complete(other);
                        let j = choose|j: int| 0 <= j < all_macros().len() && all_macros()[j] == other;
                        assert(s@.is_prefix_of(all_macros()[j].spec_name()));
                    }
                }
                Ok(m)
            },
            None => {
                proof {
                    assert forall|c: Macro| !Self::names_only(s@, c) by {
                        lemma_all_macros_complete(c);
                        let j = choose|j: int| 0 <= j < all_macros().len() && all_macros()[j] == c;
                        assert(!s@.is_prefix_of(all_macros()[j].spec_name()));
                    }
                }
                Err(())
            },
        }
    }
}

/// No macro is listed twice.
pub proof fn lemma_macros_distinct(i: int, j: int)
    requires
        0 <= i < all_macros().len(),
        0 <= j < all_macros().len(),
        i != j,
    ensures
        all_macros()[i] != all_macros()[j],
{
}

/// What `format_duration` of the crate `humantime` writes for a duration of
/// `millis` milliseconds: the duration in years, months, days, hours,
/// minutes, seconds and milliseconds, those that are zero left out.
pub uninterp spec fn humantime_text(millis: u64) -> Seq<char>;

/// `humantime::format_duration` for a duration of `millis` milliseconds,
/// rendered. The text depends on the duration alone.
#[verifier::external_body]
fn format_millis(millis: u64) -> (r: String)
    ensures
        r@ == humantime_text(millis),
{
    humantime::format_duration(std::time::Duration::from_millis(millis)).to_string()
}

/// The line that tells how long an evaluation took; `formatted` is the
/// duration as it is written.
pub fn time_line(formatted: &str) -> (r: String)
    ensures
        r@ == "Time elapsed: "@ + formatted@,
{
    let mut s = String::from_str("Time elapsed: ");
    s.append(formatted);
    s
}

/// The Church encoding of a truth value: `\x . \y . x` for true, `\x . \y . y`
/// for false.
pub open spec fn church_bool(b: bool) -> Term {
    Term::Abs(
        "x"@,
        Box::new(
            Term::Abs(
                "y"@,
                Box::new(
                    Term::Var(
                        if b {
                            "x"@
                        } else {
                            "y"@
                        },
                    ),
                ),
            ),
        ),
    )
}

/// The Church encoding of a truth value.
fn encode_bool(b: bool) -> (r: LambdaTree)
    ensures
        r@ == church_bool(b),
{
    LambdaTree::new_abstraction(
        String::from_str("x"),
        LambdaTree::new_abstraction(
            String::from_str("y"),
            LambdaTree::new_variable(String::from_str(if b {
                "x"
            } else {
                "y"
            })),
        ),
    )
}

/// `term` is what normalizing `t` by `strategy` leaves after `n`
/// contractions: the strategy finds no redex in it, unless `n` is the largest
/// number that a `usize` holds.
pub open spec fn normalized(strategy: Strategy, t: Term, n: nat, term: Term) -> bool {
    &&& strategy.iterate(t, n) == Some(term)
    &&& n <= usize::MAX
    &&& n < usize::MAX ==> strategy.is_normal(term)
}

/// `term` is `t` after one contraction by `strategy`, or `t` itself where the
/// strategy finds no redex.
pub open spec fn reduced(strategy: Strategy, t: Term, term: Term) -> bool {
    term == match strategy.step(t) {
        Some(u) => u,
        None => t,
    }
}

impl Macro {
    /// Whether the macro works on the canonical form or the type of its
    /// arguments, which a term with a macro invocation left in it does not
    /// have.
    pub open spec fn needs_plain(self) -> bool {
        self == Macro::AlphaEq || self == Macro::DeBruijn || self == Macro::Type
    }

    /// The error that ends the macro where it cannot be applied to `args`, by
    /// its kind and what it says: the number of arguments is not the one that
    /// the macro takes; or the macro works on canonical forms or on types,
    /// and an argument still holds a macro invocation.
    pub open spec fn failure(self, args: Seq<Term>) -> Option<(LashErrorType, Seq<char>)> {
        if args.len() != self.spec_nargs() {
            Some(
                (
                    LashErrorType::MacroArgError,
                    "macro "@ + self.spec_name() + " expects "@ + decimal(self.spec_nargs())
                        + " arguments, but "@ + decimal(args.len()) + " were given"@,
                ),
            )
        } else if self.needs_plain() && exists|i: int|
            0 <= i < args.len() && !(#[trigger] args[i]).macro_free() {
            Some(
                (
                    LashErrorType::NotSupportedError,
                    "macro "@ + self.spec_name()
                        + " cannot work on a term with a macro left in it"@,
                ),
            )
        } else {
            None
        }
    }

    /// The macro, applied to `args` under `strategy` after an evaluation that
    /// took `duration` milliseconds, yields `term` and prints `lines`.
    pub open spec fn applied(
        self,
        strategy: Strategy,
        args: Seq<Term>,
        duration: u64,
        term: Term,
        lines: Seq<Seq<char>>,
    ) -> bool {
        match self {
            Macro::AlphaEq => term == church_bool(args[0].alpha_eq(args[1])) && lines == seq![
                if args[0].alpha_eq(args[1]) {
                    "Terms are alpha equivalent"@
                } else {
                    "Terms are NOT alpha equivalent"@
                },
            ],
            Macro::CNormalize => exists|n: nat| #[trigger]
                normalized(strategy, args[0], n, term) && lines == seq![
                    "Number of reductions: "@ + decimal(n),
                ],
            Macro::DeBruijn => term == args[0] && lines == seq![
                args[0].canon(Seq::empty()).show(),
            ],
            Macro::Debug => term == args[0] && lines == seq![args[0].show()],
            Macro::Macros => term == Term::Deferred(self, args) && lines == Seq::new(
                all_macros().len(),
                |i: int| all_macros()[i].spec_listing(),
            ),
            Macro::Normalize => lines.len() == 0 && exists|n: nat| #[trigger]
                normalized(strategy, args[0], n, term),
            Macro::Reduce => lines.len() == 0 && reduced(strategy, args[0], term),
            Macro::Resolve => term == args[0].resolve() && lines.len() == 0,
            Macro::Time => term == args[0] && lines == seq![
                "Time elapsed: "@ + humantime_text(duration),
            ],
            Macro::Type => term == args[0] && lines.len() == 1 && {
                ||| exists|ty: Type| #[trigger]
                    principal(args[0], ty) && lines[0] == "Infered type: "@ + ty.show()
                ||| exists|msg: Seq<char>| #[trigger]
                    infer_failure(msg, Seq::empty(), args[0]) && lines[0]
                        == "Cannot infer type: "@ + msg
            },
            Macro::VNormalize => shows_steps(strategy, args[0], lines) && exists|n: nat| #[trigger]
                normalized(strategy, args[0], n, term) && lines.len() == n,
            Macro::VReduce => reduced(strategy, args[0], term) && shows_steps(
                strategy,
                args[0],
                lines,
            ) && lines.len() == if strategy.step(args[0]) is Some {
                1nat
            } else {
                0nat
            },
        }
    }

    /// Carries the macro out on `terms`, under `strategy`; `duration` is the
    /// time in milliseconds that the evaluation of the arguments took. It
    /// yields the term that takes the place of the invocation and the lines
    /// to be printed. It fails where the number of arguments is not the one
    /// that the macro takes, and where a macro that works on canonical forms
    /// or types is given a term with a macro invocation left in it.
    pub fn apply(self, strategy: Strategy, terms: Vec<LambdaTree>, duration: u64) -> (r: LashResult<(LambdaTree, Vec<String>)>)
        ensures
            match r {
                Ok((term, lines)) => terms.len() == self.spec_nargs() && self.applied(
                    strategy,
                    terms_view(terms@),
                    duration,
                    term@,
                    lines_view(lines@),
                ),
                Err(e) => self.failure(terms_view(terms@)) == Some((e.kind(), e.text())),
            },
            r is Err <==> self.failure(terms_view(terms@)) is Some,
    {
        if terms.len() != self.nargs() {
            return Err(LashError::new_macro_arg_error(self, self.nargs(), terms.len()));
        }
        let ghost args = terms_view(terms@);
        let mut lines: Vec<String> = Vec::new();
        let term = match self {
            Macro::AlphaEq => {
                assert(args[0] == terms[0]@ && args[1] == terms[1]@);
                if !terms[0].is_macro_free() || !terms[1].is_macro_free() {
                    return Err(Self::not_plain(self));
                }
                let equal = terms[0].alpha_eq(&terms[1]);
                if equal {
                    lines.push(String::from_str("Terms are alpha equivalent"));
                } else {
                    lines.push(String::from_str("Terms are NOT alpha equivalent"));
                }
                assert(lines_view(lines@) =~= seq![lines[0]@]);
                encode_bool(equal)
            },
            Macro::CNormalize => {
                assert(args[0] == terms[0]@);
                let (term, count, _) = strategy.normalize(terms[0].clone(), false);
                let mut line = String::from_str("Number of reductions: ");
                line.append(decimal_string(count).as_str());
                lines.push(line);
                assert(lines_view(lines@) =~= seq![lines[0]@]);
                assert(normalized(strategy, args[0], count as nat, term@));
                term
            },
            Macro::DeBruijn => {
                assert(args[0] == terms[0]@);
                if !terms[0].is_macro_free() {
                    return Err(Self::not_plain(self));
                }
                lines.push(terms[0].to_canonical().to_string());
                assert(lines_view(lines@) =~= seq![lines[0]@]);
                terms[0].clone()
            },
            Macro::Debug => {
                assert(args[0] == terms[0]@);
                lines.push(terms[0].to_string());
                assert(lines_view(lines@) =~= seq![lines[0]@]);
                terms[0].clone()
            },
            Macro::Macros => {
                lines = Self::print_all();
                assert(lines_view(lines@) =~= Seq::new(
                    all_macros().len(),
                    |i: int| all_macros()[i].spec_listing(),
                ));
                LambdaTree::new_macro(self, terms)
            },
            Macro::Normalize => {
                assert(args[0] == terms[0]@);
                let (term, count, _) = strategy.normalize(terms[0].clone(), false);
                assert(normalized(strategy, args[0], count as nat, term@));
                term
            },
            Macro::Reduce => {
                assert(args[0] == terms[0]@);
                match strategy.reduce(&terms[0], false) {
                    Some(red) => red.term,
                    None => terms[0].clone(),
                }
            },
            Macro::Resolve => {
                assert(args[0] == terms[0]@);
                terms[0].resolve()
            },
            Macro::Time => {
                assert(args[0] == terms[0]@);
                lines.push(time_line(format_millis(duration).as_str()));
                assert(lines_view(lines@) =~= seq![lines[0]@]);
                terms[0].clone()
            },
            Macro::VNormalize => {
                assert(args[0] == terms[0]@);
                let (term, count, steps) = strategy.normalize(terms[0].clone(), true);
                lines = steps;
                assert(normalized(strategy, args[0], count as nat, term@));
                term
            },
            Macro::VReduce => {
                assert(args[0] == terms[0]@);
                match strategy.reduce(&terms[0], true) {
                    Some(red) => {
                        match red.text {
                            Some(line) => {
                                lines.push(line);
                                proof {
                                    let shown = lines_view(lines@);
                                    assert(shown =~= Seq::<Seq<char>>::empty().push(line@));
                                    assert(strategy.iterate(args[0], 0) == Some(args[0]));
                                    lemma_shows_steps_push(
                                        strategy,
                                        args[0],
                                        Seq::empty(),
                                        args[0],
                                        line@,
                                    );
                                }
                            },
                            None => {},
                        }
                        red.term
                    },
                    None => {
                        assert(lines_view(lines@) =~= Seq::<Seq<char>>::empty());
                        terms[0].clone()
                    },
                }
            },
            Macro::Type => {
                assert(args[0] == terms[0]@);
                if !terms[0].is_macro_free() {
                    return Err(Self::not_plain(self));
                }
                match infer(&terms[0]) {
                    Ok(t) => {
                        let mut line = String::from_str("Infered type: ");
                        line.append(t.to_string().as_str());
                        lines.push(line);
                        assert(principal(args[0], t) && lines[0]@ == "Infered type: "@ + t.show());
                    },
                    Err(e) => {
                        let mut line = String::from_str("Cannot infer type: ");
                        line.append(e.as_str());
                        lines.push(line);
                        assert(infer_failure(e@, Seq::empty(), args[0]) && lines[0]@
                            == "Cannot infer type: "@ + e@);
                    },
                }
                terms[0].clone()
            },
        };
        Ok((term, lines))
    }

    /// The error for a term that holds a macro invocation where `m` needs one
    /// without.
    fn not_plain(m: Macro) -> (r: LashError)
        ensures
            r.kind() == LashErrorType::NotSupportedError,
            r.text() == "macro "@ + m.spec_name()
                + " cannot work on a term with a macro left in it"@,
    {
        let mut message = String::from_str("macro ");
        message.append(m.name());
        message.append(" cannot work on a term with a macro left in it");
        LashError::new_not_supported_error(message)
    }
}

/// How the macro invocations of a term were carried out: for each
/// invocation, how those in its arguments were, what the arguments had
/// become, how long that took, and what the macro printed.
pub enum Expansion {
    /// Of a term that is not taken apart.
    Leaf,
    /// Of an abstraction: of its body.
    Abs(Box<Expansion>),
    /// Of an application: of its two sides.
    App(Box<Expansion>, Box<Expansion>),
    /// Of an invocation.
    Invoke(Seq<Expansion>, Seq<Term>, u64, Seq<Seq<char>>),
}

/// `w` tells how `t` became `out` when its macro invocations were carried
/// out under `strategy`: variables, numerals and named links stay as they
/// are; abstractions and applications are rebuilt from what their parts
/// became; an invocation yields what its macro yields for what its
/// arguments became.
pub open spec fn expands_by(w: Expansion, strategy: Strategy, t: Term, out: Term) -> bool
    decreases t,
{
    match t {
        Term::Var(_) => out == t,
        Term::Named(_, _) => out == t,
        Term::Num(_) => out == t,
        Term::Abs(x, b) => match (w, out) {
            (Expansion::Abs(wb), Term::Abs(y, ob)) => y == x && expands_by(*wb, strategy, *b, *ob),
            _ => false,
        },
        Term::App(l, r) => match (w, out) {
            (Expansion::App(wl, wr), Term::App(ol, or)) => expands_by(*wl, strategy, *l, *ol)
                && expands_by(*wr, strategy, *r, *or),
            _ => false,
        },
        Term::Deferred(m, args) => match w {
            Expansion::Invoke(ws, evaluated, duration, lines) => {
                &&& ws.len() == args.len()
                &&& evaluated.len() == args.len()
                &&& args.len() == m.spec_nargs()
                &&& forall|i: int|
                    0 <= i < args.len() ==> expands_by(
                        ws[i],
                        strategy,
                        #[trigger] args[i],
                        evaluated[i],
                    )
                &&& m.applied(strategy, evaluated, duration, out, lines)
            },
            _ => false,
        },
    }
}

/// `out` is what `t` may become when its macro invocations are carried out
/// under `strategy`.
pub open spec fn expands(strategy: Strategy, t: Term, out: Term) -> bool {
    exists|w: Expansion| expands_by(w, strategy, t, out)
}

/// Where the carrying out of the macro invocations of a term came to an end
/// before its time: the way to the invocation that failed, with how what was
/// carried out before it was carried out.
pub enum Stuck {
    /// In the body of an abstraction.
    Abs(Box<Stuck>),
    /// In the function side of an application.
    Left(Box<Stuck>),
    /// In the argument side of an application: how the function side was
    /// carried out and what it became, then the way on.
    Right(Expansion, Term, Box<Stuck>),
    /// In an argument of an invocation: how the arguments before it were
    /// carried out and what they became, then the way on.
    Arg(Seq<Expansion>, Seq<Term>, Box<Stuck>),
    /// At an invocation itself: how its arguments were carried out and what
    /// they became.
    Here(Seq<Expansion>, Seq<Term>),
}

/// `w` tells how the macro invocations of `t`, carried out under `strategy`
/// in the order in which they stand, arguments before the invocation, came to
/// the error `f`, given by its kind and what it says: the first invocation
/// that cannot be applied to what its arguments became fails with `f`.
pub open spec fn stuck_by(
    w: Stuck,
    strategy: Strategy,
    t: Term,
    f: (LashErrorType, Seq<char>),
) -> bool
    decreases t,
{
    match t {
        Term::Abs(_, b) => match w {
            Stuck::Abs(wb) => stuck_by(*wb, strategy, *b, f),
            _ => false,
        },
        Term::App(l, r) => match w {
            Stuck::Left(wl) => stuck_by(*wl, strategy, *l, f),
            Stuck::Right(el, ol, wr) => expands_by(el, strategy, *l, ol) && stuck_by(
                *wr,
                strategy,
                *r,
                f,
            ),
            _ => false,
        },
        Term::Deferred(m, args) => match w {
            Stuck::Arg(ws, evaluated, wk) => {
                &&& ws.len() == evaluated.len()
                &&& ws.len() < args.len()
                &&& forall|i: int|
                    0 <= i < ws.len() ==> expands_by(
                        ws[i],
                        strategy,
                        #[trigger] args[i],
                        evaluated[i],
                    )
                &&& if ws.len() < args.len() {
                    stuck_by(*wk, strategy, args[ws.len() as int], f)
                } else {
                    false
                }
            },
            Stuck::Here(ws, evaluated) => {
                &&& ws.len() == args.len()
                &&& evaluated.len() == args.len()
                &&& forall|i: int|
                    0 <= i < args.len() ==> expands_by(
                        ws[i],
                        strategy,
                        #[trigger] args[i],
                        evaluated[i],
                    )
                &&& m.failure(evaluated) == Some(f)
            },
            _ => false,
        },
        _ => false,
    }
}

/// The carrying out of the macro invocations of `t` under `strategy` may
/// come to the error `f`: some invocation in it, its arguments carried out,
/// cannot be applied.
pub open spec fn stuck(strategy: Strategy, t: Term, f: (LashErrorType, Seq<char>)) -> bool {
    exists|w: Stuck| stuck_by(w, strategy, t, f)
}

/// A term without macro invocations stays as it is, and nothing in it fails.
pub proof fn lemma_plain_expands(
    w: Expansion,
    strategy: Strategy,
    t: Term,
    out: Term,
)
    requires
        t.invocation_free(),
        expands_by(w, strategy, t, out),
    ensures
        out == t,
    decreases t,
{
    match t {
        Term::Abs(x, b) => {
            lemma_plain_expands(*w->Abs_0, strategy, *b, *out->Abs_1);
        },
        Term::App(l, r) => {
            lemma_plain_expands(*w->App_0, strategy, *l, *out->App_0);
            lemma_plain_expands(*w->App_1, strategy, *r, *out->App_1);
        },
        _ => {},
    }
}

/// Nothing fails in a term without macro invocations.
pub proof fn lemma_plain_not_stuck(
    w: Stuck,
    strategy: Strategy,
    t: Term,
    f: (LashErrorType, Seq<char>),
)
    requires
        t.invocation_free(),
    ensures
        !stuck_by(w, strategy, t, f),
    decreases t,
{
    match t {
        Term::Abs(x, b) => {
            if w is Abs {
                lemma_plain_not_stuck(*w->Abs_0, strategy, *b, f);
            }
        },
        Term::App(l, r) => {
            match w {
                Stuck::Left(wl) => {
                    lemma_plain_not_stuck(*wl, strategy, *l, f);
                },
                Stuck::Right(el, ol, wr) => {
                    lemma_plain_not_stuck(*wr, strategy, *r, f);
                },
                _ => {},
            }
        },
        _ => {},
    }
}

/// When success is owed to an invocation: where its arguments hold no
/// invocations themselves and the macro can be applied to them, with their
/// number right and, for a macro that needs it, no invocation left behind a
/// named link, the invocation does not fail, and what it becomes is what the
/// macro yields for these arguments.
pub proof fn lemma_invocation_succeeds(m: Macro, args: Seq<Term>, strategy: Strategy)
    requires
        forall|i: int| 0 <= i < args.len() ==> (#[trigger] args[i]).invocation_free(),
        m.failure(args) is None,
    ensures
        forall|f: (LashErrorType, Seq<char>)| !stuck(strategy, Term::Deferred(m, args), f),
        forall|out: Term| #[trigger]
            expands(strategy, Term::Deferred(m, args), out) ==> exists|
                duration: u64,
                lines: Seq<Seq<char>>,
            | #[trigger] m.applied(strategy, args, duration, out, lines),
{
    let t = Term::Deferred(m, args);
    assert forall|f: (LashErrorType, Seq<char>)| !stuck(strategy, t, f) by {
        if stuck(strategy, t, f) {
            let w = choose|w: Stuck| stuck_by(w, strategy, t, f);
            match w {
                Stuck::Arg(ws, evaluated, wk) => {
                    lemma_plain_not_stuck(*wk, strategy, args[ws.len() as int], f);
                },
                Stuck::Here(ws, evaluated) => {
                    assert forall|i: int| 0 <= i < args.len() implies evaluated[i] == args[i] by {
                        assert(expands_by(ws[i], strategy, args[i], evaluated[i]));
                        lemma_plain_expands(ws[i], strategy, args[i], evaluated[i]);
                    }
                    assert(evaluated =~= args);
                },
                _ => {},
            }
        }
    }
    assert forall|out: Term| #[trigger] expands(strategy, t, out) implies exists|
        duration: u64,
        lines: Seq<Seq<char>>,
    | #[trigger] m.applied(strategy, args, duration, out, lines) by {
        let w = choose|w: Expansion| expands_by(w, strategy, t, out);
        match w {
            Expansion::Invoke(ws, evaluated, duration, lines) => {
                assert forall|i: int| 0 <= i < args.len() implies evaluated[i] == args[i] by {
                    assert(expands_by(ws[i], strategy, args[i], evaluated[i]));
                    lemma_plain_expands(ws[i], strategy, args[i], evaluated[i]);
                }
                assert(evaluated =~= args);
                assert(m.applied(strategy, args, duration, out, lines));
            },
            _ => {},
        }
    }
}

} // verus!
