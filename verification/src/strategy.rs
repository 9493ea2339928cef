use colored::Colorize;
use vstd::prelude::*;
use vstd::string::StringExecFns;
use crate::lambda::{LambdaNode, LambdaTree};
use crate::term::{church_body, name_f, name_x, Term};
use crate::text::{same_text, Name};

verus! {

/// The discipline by which the next redex is chosen.
#[derive(Debug, Copy, Clone, PartialEq, Eq, Structural)]
pub enum Strategy {
    /// Nested redexes first: an application is contracted only when neither
    /// side holds a redex.
    Applicative,
    /// Outer redexes first.
    Normal,
    /// Outer redexes first, never below a binder and never in an argument.
    CallByName,
}

/// Where, seen from an application, the chosen redex lies.
pub enum Side {
    /// The application itself is the redex.
    Here,
    /// In its function side.
    Left,
    /// In its argument side.
    Right,
    /// There is none.
    Nowhere,
}

/// What a search for the next redex finds.
pub struct Found {
    /// The redex, as it stands before the contraction.
    pub redex: Term,
    /// The whole term once the redex is contracted.
    pub reduct: Term,
    /// The number of abstractions and applications that the redex lies below,
    /// no more than the largest `usize`.
    pub depth: nat,
}

/// One level deeper, as far as a `usize` counts.
pub open spec fn bump(d: nat) -> nat {
    if d < usize::MAX {
        d + 1
    } else {
        d
    }
}

/// The binder and the body of the abstraction that `t` is, links to or, as a
/// numeral, stands for.
pub open spec fn head_abs(t: Term) -> Option<(Name, Term)>
    decreases t,
{
    match t {
        Term::Abs(x, b) => Some((x, *b)),
        Term::Named(_, u) => head_abs(*u),
        Term::Num(n) => Some((name_f(), Term::Abs(name_x(), Box::new(church_body(n))))),
        _ => None,
    }
}

/// What the redex of `l` applied to `r` contracts to: the body of the
/// abstraction that `l` yields, with `r` for its binder.
pub open spec fn contraction(l: Term, r: Term) -> Term {
    match head_abs(l) {
        Some((x, body)) => body.subst(x, r),
        None => Term::App(Box::new(l), Box::new(r)),
    }
}

/// The deeper of two candidates, the left one if they are equally deep.
pub open spec fn pick(left: Option<nat>, right: Option<nat>) -> Side {
    match (left, right) {
        (Some(a), Some(b)) => if b > a {
            Side::Right
        } else {
            Side::Left
        },
        (Some(_), None) => Side::Left,
        (None, Some(_)) => Side::Right,
        (None, None) => Side::Nowhere,
    }
}

/// The depth of what was found, if anything was.
pub open spec fn depth_of(found: Option<Found>) -> Option<nat> {
    match found {
        Some(f) => Some(f.depth),
        None => None,
    }
}

impl Strategy {
    /// Which redex an application yields: `here` says whether the application
    /// is a redex itself, `left` and `right` how deep the candidate of each
    /// side lies, if the side has one.
    pub open spec fn choice(self, here: bool, left: Option<nat>, right: Option<nat>) -> Side {
        match self {
            Strategy::Normal => if here {
                Side::Here
            } else {
                pick(left, right)
            },
            Strategy::Applicative => if left is Some || right is Some {
                pick(left, right)
            } else if here {
                Side::Here
            } else {
                Side::Nowhere
            },
            Strategy::CallByName => if here {
                Side::Here
            } else if left is Some {
                Side::Left
            } else {
                Side::Nowhere
            },
        }
    }

    /// The side that the search takes at the application of `l` to `r`.
    pub open spec fn side(self, l: Term, r: Term) -> Side {
        self.choice(head_abs(l) is Some, depth_of(self.find(l)), depth_of(self.find(r)))
    }

    /// The redex that the strategy contracts next in `t`, with the term that
    /// the contraction leaves; `None` if `t` holds no redex that the strategy
    /// reaches. Named links are looked through, and the reduct holds what the
    /// link led to in place of a link that the redex lay under. Numerals and
    /// macro invocations hold no redex.
    pub open spec fn find(self, t: Term) -> Option<Found>
        decreases t,
    {
        match t {
            Term::Var(_) => None,
            Term::Num(_) => None,
            Term::Deferred(_, _) => None,
            Term::Named(_, u) => self.find(*u),
            Term::Abs(x, b) => if self == Strategy::CallByName {
                None
            } else {
                match self.find(*b) {
                    Some(f) => Some(
                        Found {
                            redex: f.redex,
                            reduct: Term::Abs(x, Box::new(f.reduct)),
                            depth: bump(f.depth),
                        },
                    ),
                    None => None,
                }
            },
            Term::App(l, r) => {
                let left = self.find(*l);
                let right = self.find(*r);
                match self.choice(head_abs(*l) is Some, depth_of(left), depth_of(right)) {
                    Side::Here => Some(
                        Found {
                            redex: t,
                            reduct: contraction(*l, *r),
                            depth: 0,
                        },
                    ),
                    Side::Left => Some(
                        Found {
                            redex: left->0.redex,
                            reduct: Term::App(Box::new(left->0.reduct), r),
                            depth: bump(left->0.depth),
                        },
                    ),
                    Side::Right => Some(
                        Found {
                            redex: right->0.redex,
                            reduct: Term::App(l, Box::new(right->0.reduct)),
                            depth: bump(right->0.depth),
                        },
                    ),
                    Side::Nowhere => None,
                }
            },
        }
    }

    /// The term after one contraction, `None` if the strategy finds no redex.
    pub open spec fn step(self, t: Term) -> Option<Term> {
        match self.find(t) {
            Some(f) => Some(f.reduct),
            None => None,
        }
    }

    /// The term after `n` contractions, `None` if the strategy finds no redex
    /// before it has made them.
    pub open spec fn iterate(self, t: Term, n: nat) -> Option<Term>
        decreases n,
    {
        if n == 0 {
            Some(t)
        } else {
            match self.iterate(t, (n - 1) as nat) {
                Some(u) => self.step(u),
                None => None,
            }
        }
    }

    /// `t` is in normal form for the strategy: it finds no redex in it.
    pub open spec fn is_normal(self, t: Term) -> bool {
        self.find(t) is None
    }

    /// The line that shows a step: `t` as it is written, with `mark` where the
    /// redex to be contracted stands.
    pub open spec fn step_text(self, t: Term, mark: Seq<char>) -> Seq<char>
        decreases t,
    {
        match t {
            Term::Named(_, u) => self.step_text(*u, mark),
            Term::Abs(x, b) => seq!['\\'] + x + seq![' ', '.', ' '] + self.step_text(*b, mark),
            Term::App(l, r) => match self.side(*l, *r) {
                Side::Here => mark,
                Side::Left => application_text(
                    *l,
                    Some(self.step_text(*l, mark)),
                    *r,
                    None,
                ),
                Side::Right => application_text(
                    *l,
                    None,
                    *r,
                    Some(self.step_text(*r, mark)),
                ),
                Side::Nowhere => Seq::empty(),
            },
            _ => Seq::empty(),
        }
    }
}

/// An application as it is written, with `left_text` or `right_text`, where
/// there is one, in place of the side it belongs to.
pub open spec fn application_text(
    left: Term,
    left_text: Option<Seq<char>>,
    right: Term,
    right_text: Option<Seq<char>>,
) -> Seq<char> {
    match (left_text, right_text) {
        (Some(lt), _) => if left.needs_paren(true) {
            seq!['('] + lt + seq![')', ' '] + right.show_paren(false)
        } else {
            lt + seq![' '] + right.show_paren(false)
        },
        (None, Some(rt)) => if right.needs_paren(false) {
            left.show_paren(true) + seq![' ', '('] + rt + seq![')']
        } else {
            left.show_paren(true) + seq![' '] + rt
        },
        (None, None) => left.show_paren(true) + seq![' '] + right.show_paren(false),
    }
}

/// The line for a redex: the painted function side, a space, the painted
/// argument side.
pub open spec fn redex_mark(left_painted: Seq<char>, right_painted: Seq<char>) -> Seq<char> {
    left_painted + seq![' '] + right_painted
}

/// The view of a text that may be absent.
pub open spec fn text_view(text: Option<String>) -> Option<Seq<char>> {
    match text {
        Some(s) => Some(s@),
        None => None,
    }
}

/// One step of a reduction.
pub struct Reduction {
    /// The redex, as it stood before the contraction.
    pub redex: LambdaTree,
    /// The whole term after the contraction.
    pub term: LambdaTree,
    /// The number of abstractions and applications that the redex lay below.
    pub depth: usize,
    /// The line that shows the step, if one was asked for.
    pub text: Option<String>,
}

impl Reduction {
    /// The step is the one that `found` describes, and it carries a line for
    /// `t` exactly if `verbose` asks for one.
    pub open spec fn matches_found(self, strategy: Strategy, t: Term, found: Found, verbose: bool) -> bool {
        &&& self.redex@ == found.redex
        &&& self.term@ == found.reduct
        &&& self.depth == found.depth
        &&& verbose ==> self.text is Some && shows_step(strategy, t, self.text->0@)
        &&& !verbose ==> self.text is None
    }
}

/// `line` shows the step that the strategy takes in `t`: it is `t` as it is
/// written, with the two sides of the redex painted.
pub open spec fn shows_step(strategy: Strategy, t: Term, line: Seq<char>) -> bool {
    exists|left: Seq<char>, right: Seq<char>| #[trigger] shown_by(strategy, t, line, left, right)
}

/// `line` is `t` as it is written, with `left`, a space and `right` where the
/// redex that the strategy finds stands, and these are the two sides of that
/// redex, painted: the function side in blue, the argument side in bright
/// blue.
pub open spec fn shown_by(
    strategy: Strategy,
    t: Term,
    line: Seq<char>,
    left: Seq<char>,
    right: Seq<char>,
) -> bool {
    &&& line == strategy.step_text(t, redex_mark(left, right))
    &&& strategy.find(t) matches Some(found)
    &&& found.redex matches Term::App(function, argument)
    &&& painted(function.show_paren(true), blue_code(), left)
    &&& painted(argument.show_paren(false), bright_blue_code(), right)
}

/// `lines` show the contractions that lead on from `t`, one after the other:
/// each is the line for the step from the term that the steps before it
/// left.
pub open spec fn shows_steps(strategy: Strategy, t: Term, lines: Seq<Seq<char>>) -> bool
    decreases lines.len(),
{
    if lines.len() == 0 {
        true
    } else {
        &&& shows_steps(strategy, t, lines.drop_last())
        &&& strategy.iterate(t, (lines.len() - 1) as nat) is Some
        &&& shows_step(strategy, strategy.iterate(t, (lines.len() - 1) as nat)->0, lines.last())
    }
}

/// Lines that show steps, with the line for the next step added, show the
/// steps with that one.
pub proof fn lemma_shows_steps_push(
    strategy: Strategy,
    t: Term,
    shown: Seq<Seq<char>>,
    u: Term,
    line: Seq<char>,
)
    requires
        shows_steps(strategy, t, shown),
        strategy.iterate(t, shown.len()) == Some(u),
        shows_step(strategy, u, line),
    ensures
        shows_steps(strategy, t, shown.push(line)),
{
    assert(shown.push(line).drop_last() =~= shown);
}

/// The views of the lines.
pub open spec fn lines_view(lines: Seq<String>) -> Seq<Seq<char>> {
    Seq::new(lines.len(), |i: int| lines[i]@)
}

/// What `result` must be for a search in `t`: nothing where the strategy finds
/// nothing, else the step that it finds.
pub open spec fn reduces_as(result: Option<Reduction>, strategy: Strategy, t: Term, verbose: bool) -> bool {
    match result {
        Some(red) => strategy.find(t) is Some && red.matches_found(
            strategy,
            t,
            strategy.find(t)->0,
            verbose,
        ),
        None => strategy.find(t) is None,
    }
}

/// The escape sequence that ends a colour.
pub open spec fn reset_code() -> Seq<char> {
    seq!['\u{1b}', '[', '0', 'm']
}

/// The escape sequence that starts blue.
pub open spec fn blue_code() -> Seq<char> {
    seq!['\u{1b}', '[', '3', '4', 'm']
}

/// The escape sequence that starts bright blue.
pub open spec fn bright_blue_code() -> Seq<char> {
    seq!['\u{1b}', '[', '9', '4', 'm']
}

/// The escape sequence that ends a colour stands somewhere in `text`.
pub open spec fn holds_reset(text: Seq<char>) -> bool {
    exists|i: int|
        0 <= i && i + 4 <= text.len() && #[trigger] text.subrange(i, i + 4) == reset_code()
}

/// `r` is `text` painted in the colour that `code` starts: `text` as it is
/// where colours are switched off, else `text` between `code` and the
/// sequence that ends a colour; where colours are switched off while the
/// text is painted, `code` may be missing before it. Nothing is said of a
/// text that holds the sequence that ends a colour itself.
pub open spec fn painted(text: Seq<char>, code: Seq<char>, r: Seq<char>) -> bool {
    ||| holds_reset(text)
    ||| r == text
    ||| r == code + text + reset_code()
    ||| r == text + reset_code()
}

/// `Colorize::blue` of the crate `colored`, rendered: `text` as a terminal
/// shows it in blue. Whether the escape sequences are added depends on the
/// terminal and the environment, which the crate asks each time it writes
/// one, so the result is the text, or the text between the sequence for blue
/// and the one that ends a colour, or the text before the latter alone.
#[verifier::external_body]
fn paint_blue(text: &str) -> (r: String)
    ensures
        painted(text@, blue_code(), r@),
{
    text.blue().to_string()
}

/// `Colorize::bright_blue` of the crate `colored`, rendered: `text` as a
/// terminal shows it in bright blue. Whether the escape sequences are added
/// depends on the terminal and the environment, which the crate asks each
/// time it writes one, so the result is the text, or the text between the
/// sequence for bright blue and the one that ends a colour, or the text
/// before the latter alone.
#[verifier::external_body]
fn paint_bright_blue(text: &str) -> (r: String)
    ensures
        painted(text@, bright_blue_code(), r@),
{
    text.bright_blue().to_string()
}

/// The line for a redex: its two sides, each painted, with a space between.
pub fn redex_line(left_painted: &str, right_painted: &str) -> (r: String)
    ensures
        r@ == redex_mark(left_painted@, right_painted@),
{
    proof {
        reveal_strlit(" ");
    }
    let mut s = String::from_str(left_painted);
    s.append(" ");
    s.append(right_painted);
    assert(s@ =~= left_painted@ + seq![' '] + right_painted@);
    s
}

/// One level deeper, as far as a `usize` counts.
fn bump_depth(d: usize) -> (r: usize)
    ensures
        r == bump(d as nat),
{
    if d < usize::MAX {
        d + 1
    } else {
        d
    }
}

/// The binder and the body of the abstraction that `term` is, links to or, as
/// a numeral, stands for.
pub fn head_abstraction(term: &LambdaTree) -> (r: Option<(String, LambdaTree)>)
    ensures
        match r {
            Some((x, b)) => head_abs(term@) == Some((x@, b@)),
            None => head_abs(term@) is None,
        },
    decreases term@.size(),
{
    match term.node() {
        LambdaNode::Abstraction(var_name, inner_term) => Some(
            (var_name.clone(), inner_term.clone()),
        ),
        LambdaNode::Named(named) => {
            let inner = named.term();
            head_abstraction(&inner)
        },
        LambdaNode::ChurchNum(d) => {
            let expanded = LambdaTree::unwrap_church_num(*d);
            match expanded.node() {
                LambdaNode::Abstraction(var_name, inner_term) => Some(
                    (var_name.clone(), inner_term.clone()),
                ),
                _ => None,
            }
        },
        _ => None,
    }
}

impl Strategy {
    /// The line for a redex, if `verbose`: its function side in blue, a space,
    /// its argument side in bright blue.
    pub fn reduction_format_redex(left_term: &LambdaTree, right_term: &LambdaTree, verbose: bool) -> (r: Option<String>)
        ensures
            r is Some <==> verbose,
            r matches Some(line) ==> exists|left: Seq<char>, right: Seq<char>|
                line@ == #[trigger] redex_mark(left, right) && painted(
                    left_term@.show_paren(true),
                    blue_code(),
                    left,
                ) && painted(right_term@.show_paren(false), bright_blue_code(), right),
    {
        if verbose {
            let left = paint_blue(left_term.fmt_with_parenthesis(true).as_str());
            let right = paint_bright_blue(right_term.fmt_with_parenthesis(false).as_str());
            let line = redex_line(left.as_str(), right.as_str());
            assert(line@ == redex_mark(left@, right@));
            Some(line)
        } else {
            None
        }
    }

    /// The line for an application one of whose sides holds the redex, if
    /// `verbose`: the application as it is written, with the line of that side
    /// in the side's place.
    pub fn reduction_format_application(
        left_term: &LambdaTree,
        left_string: Option<String>,
        right_term: &LambdaTree,
        right_string: Option<String>,
        verbose: bool,
    ) -> (r: Option<String>)
        requires
            !(left_string is Some && right_string is Some),
        ensures
            text_view(r) == if verbose {
                Some(
                    application_text(
                        left_term@,
                        text_view(left_string),
                        right_term@,
                        text_view(right_string),
                    ),
                )
            } else {
                None
            },
    {
        proof {
            reveal_strlit("(");
            reveal_strlit(") ");
            reveal_strlit(" ");
            reveal_strlit(" (");
            reveal_strlit(")");
        }
        if verbose {
            if let Some(left_string) = left_string {
                let mut s = if left_term.needs_parenthesis(true) {
                    let mut p = String::from_str("(");
                    p.append(left_string.as_str());
                    p.append(") ");
                    p
                } else {
                    let mut p = left_string;
                    p.append(" ");
                    p
                };
                s.append(right_term.fmt_with_parenthesis(false).as_str());
                assert(s@ =~= application_text(
                    left_term@,
                    Some(left_string@),
                    right_term@,
                    text_view(right_string),
                ));
                Some(s)
            } else if let Some(right_string) = right_string {
                let mut s = left_term.fmt_with_parenthesis(true);
                if right_term.needs_parenthesis(false) {
                    s.append(" (");
                    s.append(right_string.as_str());
                    s.append(")");
                } else {
                    s.append(" ");
                    s.append(right_string.as_str());
                }
                assert(s@ =~= application_text(left_term@, None, right_term@, Some(right_string@)));
                Some(s)
            } else {
                let mut s = left_term.fmt_with_parenthesis(true);
                s.append(" ");
                s.append(right_term.fmt_with_parenthesis(false).as_str());
                assert(s@ =~= application_text(left_term@, None, right_term@, None));
                Some(s)
            }
        } else {
            None
        }
    }
}

/// The depth of a step, if there is one.
pub open spec fn step_depth(result: Option<Reduction>) -> Option<nat> {
    match result {
        Some(red) => Some(red.depth as nat),
        None => None,
    }
}

impl Strategy {
    /// The step of an application whose function side holds the chosen redex.
    fn on_left(self, left_term: &LambdaTree, red: Reduction, right_term: &LambdaTree, verbose: bool) -> (r: Reduction)
        requires
            self.find(left_term@) is Some,
            red.matches_found(self, left_term@, self.find(left_term@)->0, verbose),
            self.side(left_term@, right_term@) == Side::Left,
        ensures
            reduces_as(
                Some(r),
                self,
                Term::App(Box::new(left_term@), Box::new(right_term@)),
                verbose,
            ),
    {
        let ghost t = Term::App(Box::new(left_term@), Box::new(right_term@));
        let Reduction { redex, term, depth, text } = red;
        let ghost inner = text_view(text);
        let line = Self::reduction_format_application(left_term, text, right_term, None, verbose);
        proof {
            if verbose {
                let (left, right) = choose|left: Seq<char>, right: Seq<char>| #[trigger]
                    shown_by(self, left_term@, inner->0, left, right);
                assert(shown_by(self, t, line->0@, left, right));
            }
        }
        Reduction {
            redex,
            term: LambdaTree::new_application(term, right_term.clone()),
            depth: bump_depth(depth),
            text: line,
        }
    }

    /// The step of an application whose argument side holds the chosen redex.
    fn on_right(self, left_term: &LambdaTree, right_term: &LambdaTree, red: Reduction, verbose: bool) -> (r: Reduction)
        requires
            self.find(right_term@) is Some,
            red.matches_found(self, right_term@, self.find(right_term@)->0, verbose),
            self.side(left_term@, right_term@) == Side::Right,
        ensures
            reduces_as(
                Some(r),
                self,
                Term::App(Box::new(left_term@), Box::new(right_term@)),
                verbose,
            ),
    {
        let ghost t = Term::App(Box::new(left_term@), Box::new(right_term@));
        let Reduction { redex, term, depth, text } = red;
        let ghost inner = text_view(text);
        let line = Self::reduction_format_application(left_term, None, right_term, text, verbose);
        proof {
            if verbose {
                let (left, right) = choose|left: Seq<char>, right: Seq<char>| #[trigger]
                    shown_by(self, right_term@, inner->0, left, right);
                assert(shown_by(self, t, line->0@, left, right));
            }
        }
        Reduction {
            redex,
            term: LambdaTree::new_application(left_term.clone(), term),
            depth: bump_depth(depth),
            text: line,
        }
    }

    /// The step of an application that is itself the chosen redex: the body of
    /// the abstraction `\var_name . inner_term` that its function side yields,
    /// with the argument for the binder.
    fn on_redex(
        self,
        term: &LambdaTree,
        left_term: &LambdaTree,
        right_term: &LambdaTree,
        var_name: &String,
        inner_term: &LambdaTree,
        verbose: bool,
    ) -> (r: Reduction)
        requires
            term@ == Term::App(Box::new(left_term@), Box::new(right_term@)),
            head_abs(left_term@) == Some((var_name@, inner_term@)),
            self.side(left_term@, right_term@) == Side::Here,
        ensures
            reduces_as(Some(r), self, term@, verbose),
    {
        let line = Self::reduction_format_redex(left_term, right_term, verbose);
        let (reduct, _) = inner_term.substitute_name(var_name, right_term);
        proof {
            if verbose {
                let (left, right) = choose|left: Seq<char>, right: Seq<char>|
                    line->0@ == #[trigger] redex_mark(left, right) && painted(
                        left_term@.show_paren(true),
                        blue_code(),
                        left,
                    ) && painted(right_term@.show_paren(false), bright_blue_code(), right);
                assert(shown_by(self, term@, line->0@, left, right));
            }
        }
        Reduction { redex: term.clone(), term: reduct, depth: 0, text: line }
    }

    /// The step of an application that is no redex itself, or is passed over:
    /// the deeper of the candidates of its two sides, the left one if they are
    /// equally deep.
    fn take_side(
        self,
        left_term: &LambdaTree,
        left_option: Option<Reduction>,
        right_term: &LambdaTree,
        right_option: Option<Reduction>,
        verbose: bool,
    ) -> (r: Option<Reduction>)
        requires
            left_option matches Some(red) ==> self.find(left_term@) is Some && red.matches_found(
                self,
                left_term@,
                self.find(left_term@)->0,
                verbose,
            ),
            right_option matches Some(red) ==> self.find(right_term@) is Some
                && red.matches_found(self, right_term@, self.find(right_term@)->0, verbose),
            self.side(left_term@, right_term@) == pick(
                step_depth(left_option),
                step_depth(right_option),
            ),
        ensures
            reduces_as(r, self, Term::App(Box::new(left_term@), Box::new(right_term@)), verbose),
    {
        match left_option {
            Some(left_red) => match right_option {
                Some(right_red) => {
                    if right_red.depth > left_red.depth {
                        Some(self.on_right(left_term, right_term, right_red, verbose))
                    } else {
                        Some(self.on_left(left_term, left_red, right_term, verbose))
                    }
                },
                None => Some(self.on_left(left_term, left_red, right_term, verbose)),
            },
            None => match right_option {
                Some(right_red) => Some(self.on_right(left_term, right_term, right_red, verbose)),
                None => None,
            },
        }
    }

    /// The step of an abstraction whose body holds the chosen redex.
    fn under_binder(self, var_name: &String, inner_term: &LambdaTree, red: Reduction, verbose: bool) -> (r: Reduction)
        requires
            self != Strategy::CallByName,
            self.find(inner_term@) is Some,
            red.matches_found(self, inner_term@, self.find(inner_term@)->0, verbose),
        ensures
            reduces_as(Some(r), self, Term::Abs(var_name@, Box::new(inner_term@)), verbose),
    {
        let ghost t = Term::Abs(var_name@, Box::new(inner_term@));
        let Reduction { redex, term, depth, text } = red;
        let line = match text {
            Some(inner_string) => {
                proof {
                    reveal_strlit("\\");
                    reveal_strlit(" . ");
                }
                let mut s = String::from_str("\\");
                s.append(var_name.as_str());
                s.append(" . ");
                s.append(inner_string.as_str());
                proof {
                    let (left, right) = choose|left: Seq<char>, right: Seq<char>| #[trigger]
                        shown_by(self, inner_term@, inner_string@, left, right);
                    assert(s@ =~= self.step_text(t, redex_mark(left, right)));
                    assert(shown_by(self, t, s@, left, right));
                }
                Some(s)
            },
            None => None,
        };
        Reduction {
            redex,
            term: LambdaTree::new_abstraction(var_name.clone(), term),
            depth: bump_depth(depth),
            text: line,
        }
    }

    /// One step in normal order: an application that is a redex is contracted
    /// where it stands; in one that is not, the deeper of the candidates of
    /// its two sides is taken, the left one if they are equally deep. The
    /// search goes below binders.
    pub fn reduce_normal(term: &LambdaTree, verbose: bool) -> (r: Option<Reduction>)
        ensures
            reduces_as(r, Strategy::Normal, term@, verbose),
        decreases term@.size(),
    {
        match term.node() {
            LambdaNode::Abstraction(var_name, inner_term) => {
                match Self::reduce_normal(inner_term, verbose) {
                    Some(red) => Some(
                        Strategy::Normal.under_binder(var_name, inner_term, red, verbose),
                    ),
                    None => None,
                }
            },
            LambdaNode::Application(left_term, right_term) => {
                match head_abstraction(left_term) {
                    Some((var_name, inner_term)) => Some(
                        Strategy::Normal.on_redex(
                            term,
                            left_term,
                            right_term,
                            &var_name,
                            &inner_term,
                            verbose,
                        ),
                    ),
                    None => {
                        let left_option = Self::reduce_normal(left_term, verbose);
                        let right_option = Self::reduce_normal(right_term, verbose);
                        Strategy::Normal.take_side(
                            left_term,
                            left_option,
                            right_term,
                            right_option,
                            verbose,
                        )
                    },
                }
            },
            LambdaNode::Variable(_) => None,
            LambdaNode::Macro(..) => None,
            LambdaNode::Named(named) => {
                let inner = named.term();
                let r = Self::reduce_normal(&inner, verbose);
                proof {
                    if verbose && r is Some {
                        let (left, right) = choose|left: Seq<char>, right: Seq<char>| #[trigger]
                            shown_by(Strategy::Normal, inner@, r->0.text->0@, left, right);
                        assert(shown_by(Strategy::Normal, term@, r->0.text->0@, left, right));
                    }
                }
                r
            },
            LambdaNode::ChurchNum(_) => None,
        }
    }

    /// One step in applicative order: where a side of an application holds a
    /// redex, the deeper of the candidates of the two sides is taken, the left
    /// one if they are equally deep; an application is contracted itself only
    /// when neither side holds one. The search goes below binders.
    pub fn reduce_applicative(term: &LambdaTree, verbose: bool) -> (r: Option<Reduction>)
        ensures
            reduces_as(r, Strategy::Applicative, term@, verbose),
        decreases term@.size(),
    {
        match term.node() {
            LambdaNode::Abstraction(var_name, inner_term) => {
                match Self::reduce_applicative(inner_term, verbose) {
                    Some(red) => Some(
                        Strategy::Applicative.under_binder(var_name, inner_term, red, verbose),
                    ),
                    None => None,
                }
            },
            LambdaNode::Application(left_term, right_term) => {
                let left_option = Self::reduce_applicative(left_term, verbose);
                let right_option = Self::reduce_applicative(right_term, verbose);
                if left_option.is_some() || right_option.is_some() {
                    Strategy::Applicative.take_side(
                        left_term,
                        left_option,
                        right_term,
                        right_option,
                        verbose,
                    )
                } else {
                    match head_abstraction(left_term) {
                        Some((var_name, inner_term)) => Some(
                            Strategy::Applicative.on_redex(
                                term,
                                left_term,
                                right_term,
                                &var_name,
                                &inner_term,
                                verbose,
                            ),
                        ),
                        None => None,
                    }
                }
            },
            LambdaNode::Variable(_) => None,
            LambdaNode::Macro(..) => None,
            LambdaNode::Named(named) => {
                let inner = named.term();
                let r = Self::reduce_applicative(&inner, verbose);
                proof {
                    if verbose && r is Some {
                        let (left, right) = choose|left: Seq<char>, right: Seq<char>| #[trigger]
                            shown_by(Strategy::Applicative, inner@, r->0.text->0@, left, right);
                        assert(shown_by(Strategy::Applicative, term@, r->0.text->0@, left, right));
                    }
                }
                r
            },
            LambdaNode::ChurchNum(_) => None,
        }
    }

    /// One step by name: an application that is a redex is contracted where it
    /// stands; in one that is not, only the function side is searched. No
    /// redex is sought below a binder or in an argument.
    pub fn reduce_cbn(term: &LambdaTree, verbose: bool) -> (r: Option<Reduction>)
        ensures
            reduces_as(r, Strategy::CallByName, term@, verbose),
        decreases term@.size(),
    {
        match term.node() {
            LambdaNode::Abstraction(..) => None,
            LambdaNode::Application(left_term, right_term) => {
                match head_abstraction(left_term) {
                    Some((var_name, inner_term)) => Some(
                        Strategy::CallByName.on_redex(
                            term,
                            left_term,
                            right_term,
                            &var_name,
                            &inner_term,
                            verbose,
                        ),
                    ),
                    None => {
                        let left_option = Self::reduce_cbn(left_term, verbose);
                        Strategy::CallByName.take_side(
                            left_term,
                            left_option,
                            right_term,
                            None,
                            verbose,
                        )
                    },
                }
            },
            LambdaNode::Variable(_) => None,
            LambdaNode::Macro(..) => None,
            LambdaNode::Named(named) => {
                let inner = named.term();
                let r = Self::reduce_cbn(&inner, verbose);
                proof {
                    if verbose && r is Some {
                        let (left, right) = choose|left: Seq<char>, right: Seq<char>| #[trigger]
                            shown_by(Strategy::CallByName, inner@, r->0.text->0@, left, right);
                        assert(shown_by(Strategy::CallByName, term@, r->0.text->0@, left, right));
                    }
                }
                r
            },
            LambdaNode::ChurchNum(_) => None,
        }
    }

    /// One contraction by this strategy: the redex, the term that the
    /// contraction leaves, how deep the redex lay and, if `verbose`, the line
    /// that shows the step. `None` if the strategy finds no redex in `term`:
    /// the term is then in normal form for it.
    pub fn reduce(&self, term: &LambdaTree, verbose: bool) -> (r: Option<Reduction>)
        ensures
            reduces_as(r, *self, term@, verbose),
    {
        match self {
            Strategy::Applicative => Self::reduce_applicative(term, verbose),
            Strategy::Normal => Self::reduce_normal(term, verbose),
            Strategy::CallByName => Self::reduce_cbn(term, verbose),
        }
    }

    /// The redex that this strategy contracts next, as it stands in `term`,
    /// and the number of abstractions and applications that it lies below.
    pub fn next_redex(&self, term: &LambdaTree) -> (r: Option<(LambdaTree, usize)>)
        ensures
            match r {
                Some((redex, depth)) => self.find(term@) is Some && redex@ == self.find(
                    term@,
                )->0.redex && depth == self.find(term@)->0.depth,
                None => self.find(term@) is None,
            },
    {
        match self.reduce(term, false) {
            Some(red) => Some((red.redex, red.depth)),
            None => None,
        }
    }

    /// Contracts redex after redex until the strategy finds none, so that a
    /// further step would leave the term as it is: the term that is left, the
    /// number of contractions made and, if `verbose`, the line of each step.
    /// A term without a normal form under the strategy is contracted for as
    /// long as a `usize` counts, also where a contraction gives back the term
    /// that was contracted.
    pub fn normalize(&self, term: LambdaTree, verbose: bool) -> (r: (LambdaTree, usize, Vec<String>))
        ensures
            self.iterate(term@, r.1 as nat) == Some(r.0@),
            r.1 < usize::MAX ==> self.is_normal(r.0@),
            r.2.len() == if verbose {
                r.1
            } else {
                0
            },
            shows_steps(*self, term@, lines_view(r.2@)),
    {
        let ghost start = term@;
        let mut current = term;
        assert(self.iterate(start, 0) == Some(start));
        let mut nreductions: usize = 0;
        let mut lines: Vec<String> = Vec::new();
        assert(lines_view(lines@) =~= Seq::<Seq<char>>::empty());
        while nreductions < usize::MAX
            invariant
                start == term@,
                self.iterate(start, nreductions as nat) == Some(current@),
                lines.len() == if verbose {
                    nreductions
                } else {
                    0
                },
                shows_steps(*self, start, lines_view(lines@)),
            decreases usize::MAX - nreductions,
        {
            let ghost before = current@;
            let ghost shown = lines_view(lines@);
            match self.reduce(&current, verbose) {
                Some(red) => {
                    let Reduction { redex, term: reduct, depth, text } = red;
                    current = reduct;
                    nreductions += 1;
                    match text {
                        Some(line) => {
                            lines.push(line);
                            proof {
                                assert(lines_view(lines@) =~= shown.push(line@));
                                lemma_shows_steps_push(*self, start, shown, before, line@);
                            }
                        },
                        None => {
                            assert(lines_view(lines@) =~= shown);
                        },
                    }
                },
                None => {
                    return (current, nreductions, lines);
                },
            }
        }
        (current, nreductions, lines)
    }
}

impl Strategy {
    /// The strategy that `s` names: `applicative`, `normal` or `callbyname`.
    pub fn from_str(s: &str) -> (r: Result<Strategy, ()>)
        ensures
            r == Self::spec_from_str(s@),
    {
        if same_text(s, "applicative") {
            Ok(Strategy::Applicative)
        } else if same_text(s, "normal") {
            Ok(Strategy::Normal)
        } else if same_text(s, "callbyname") {
            Ok(Strategy::CallByName)
        } else {
            Err(())
        }
    }

    /// The strategy that `s` names, if it names one.
    pub open spec fn spec_from_str(s: Seq<char>) -> Result<Strategy, ()> {
        if s == "applicative"@ {
            Ok(Strategy::Applicative)
        } else if s == "normal"@ {
            Ok(Strategy::Normal)
        } else if s == "callbyname"@ {
            Ok(Strategy::CallByName)
        } else {
            Err(())
        }
    }

    /// The name of the strategy, as `from_str` reads it.
    pub fn name(&self) -> (r: &'static str)
        ensures
            Self::spec_from_str(r@) == Ok::<Strategy, ()>(*self),
    {
        proof {
            reveal_strlit("applicative");
            reveal_strlit("normal");
            reveal_strlit("callbyname");
            assert("normal"@.len() != "applicative"@.len());
            assert("callbyname"@.len() != "applicative"@.len());
            assert("callbyname"@.len() != "normal"@.len());
        }
        match self {
            Strategy::Applicative => "applicative",
            Strategy::Normal => "normal",
            Strategy::CallByName => "callbyname",
        }
    }
}

/// A term in normal form is its own normal form. Normalizing a term that the
/// strategy finds no redex in takes no step and leaves the term as it is, and
/// so its canonical form; in particular, normalizing what a normalization
/// returned changes nothing.
pub proof fn lemma_normal_form_is_fixed(strategy: Strategy, u: Term, k: nat, v: Term)
    requires
        strategy.is_normal(u),
        strategy.iterate(u, k) == Some(v),
    ensures
        k == 0,
        v == u,
        v.canon(Seq::empty()) == u.canon(Seq::empty()),
{
    lemma_no_step_from_normal(strategy, u, k);
}

/// From a term in normal form no contraction leads on.
pub proof fn lemma_no_step_from_normal(strategy: Strategy, u: Term, k: nat)
    requires
        strategy.is_normal(u),
    ensures
        strategy.iterate(u, k) == if k == 0 {
            Some(u)
        } else {
            None
        },
    decreases k,
{
    if k > 0 {
        lemma_no_step_from_normal(strategy, u, (k - 1) as nat);
    }
}

impl Default for Strategy {
    fn default() -> (r: Self)
        ensures
            r == Strategy::Applicative,
    {
        Strategy::Applicative
    }
}

} // verus!
