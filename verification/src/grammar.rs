use vstd::prelude::*;
use crate::macros::Macro;
use crate::term::Term;
use crate::text::Name;

verus! {

/// Whether `c` is a blank or a tab.
pub open spec fn is_blank(c: char) -> bool {
    c == ' ' || c == '\t'
}

/// Whether `c` may stand in a name: a letter or digit of ASCII, `_` or `'`.
pub open spec fn is_name_char(c: char) -> bool {
    ('a' <= c && c <= 'z') || ('A' <= c && c <= 'Z') || ('0' <= c && c <= '9') || c == '_' || c
        == '\''
}

/// The value of `c` as a decimal digit, if it is one.
pub open spec fn digit_of(c: char) -> Option<nat> {
    if c == '0' {
        Some(0)
    } else if c == '1' {
        Some(1)
    } else if c == '2' {
        Some(2)
    } else if c == '3' {
        Some(3)
    } else if c == '4' {
        Some(4)
    } else if c == '5' {
        Some(5)
    } else if c == '6' {
        Some(6)
    } else if c == '7' {
        Some(7)
    } else if c == '8' {
        Some(8)
    } else if c == '9' {
        Some(9)
    } else {
        None
    }
}

/// The place where the blanks that start at `pos` end.
pub open spec fn blanks_end(s: Seq<char>, pos: nat) -> nat
    decreases s.len() - pos,
{
    if pos < s.len() && is_blank(s[pos as int]) {
        blanks_end(s, pos + 1)
    } else {
        pos
    }
}

/// The place where the name that starts at `pos` ends: `pos` if none starts
/// there.
pub open spec fn name_end(s: Seq<char>, pos: nat) -> nat
    decreases s.len() - pos,
{
    if pos < s.len() && is_name_char(s[pos as int]) {
        name_end(s, pos + 1)
    } else {
        pos
    }
}

/// The place where the digits that start at `pos` end.
pub open spec fn digits_end(s: Seq<char>, pos: nat) -> nat
    decreases s.len() - pos,
{
    if pos < s.len() && digit_of(s[pos as int]) is Some {
        digits_end(s, pos + 1)
    } else {
        pos
    }
}

/// The number that the digits from `from` up to `to` write.
pub open spec fn number_value(s: Seq<char>, from: nat, to: nat) -> nat
    decreases to,
{
    if to <= from || to > s.len() {
        0
    } else {
        number_value(s, from, (to - 1) as nat) * 10 + match digit_of(s[to - 1]) {
            Some(d) => d,
            None => 0,
        }
    }
}

/// Blanks end at or after the place where they start, within the text.
pub proof fn lemma_blanks_end(s: Seq<char>, pos: nat)
    requires
        pos <= s.len(),
    ensures
        pos <= blanks_end(s, pos) <= s.len(),
    decreases s.len() - pos,
{
    if pos < s.len() && is_blank(s[pos as int]) {
        lemma_blanks_end(s, pos + 1);
    }
}

/// A name ends at or after the place where it starts, within the text.
pub proof fn lemma_name_end(s: Seq<char>, pos: nat)
    requires
        pos <= s.len(),
    ensures
        pos <= name_end(s, pos) <= s.len(),
    decreases s.len() - pos,
{
    if pos < s.len() && is_name_char(s[pos as int]) {
        lemma_name_end(s, pos + 1);
    }
}

/// Digits end at or after the place where they start, within the text.
pub proof fn lemma_digits_end(s: Seq<char>, pos: nat)
    requires
        pos <= s.len(),
    ensures
        pos <= digits_end(s, pos) <= s.len(),
    decreases s.len() - pos,
{
    if pos < s.len() && digit_of(s[pos as int]) is Some {
        lemma_digits_end(s, pos + 1);
    }
}

/// More digits do not write a smaller number.
pub proof fn lemma_number_grows(s: Seq<char>, from: nat, mid: nat, to: nat)
    requires
        from <= mid <= to <= s.len(),
    ensures
        number_value(s, from, mid) <= number_value(s, from, to),
    decreases to - mid,
{
    if mid < to {
        lemma_number_grows(s, from, mid, (to - 1) as nat);
        assert(number_value(s, from, (to - 1) as nat) <= number_value(s, from, to)) by {
            let v = number_value(s, from, (to - 1) as nat);
            assert(v <= v * 10) by (nonlinear_arith)
                requires
                    v >= 0,
            ;
        }
    }
}

/// The macro that `name` names: the one whose name begins with `name`, where
/// there is exactly one.
pub open spec fn macro_named(name: Seq<char>) -> Option<Macro> {
    if exists|m: Macro| Macro::names_only(name, m) {
        Some(choose|m: Macro| Macro::names_only(name, m))
    } else {
        None
    }
}

/// The abstraction over `vars`, the first outermost, of `body`.
pub open spec fn fold_abs(vars: Seq<Name>, body: Term) -> Term
    decreases vars.len(),
{
    if vars.len() == 0 {
        body
    } else {
        Term::Abs(vars.first(), Box::new(fold_abs(vars.drop_first(), body)))
    }
}

/// The application of the first of `ts` to the others, one after the other.
pub open spec fn fold_app(ts: Seq<Term>) -> Term
    decreases ts.len(),
{
    if ts.len() <= 1 {
        ts.first()
    } else {
        Term::App(Box::new(fold_app(ts.drop_last())), Box::new(ts.last()))
    }
}

/// The names that stand from `pos` on, blanks between them, and the place
/// after them and the blanks that follow.
pub open spec fn names_at(s: Seq<char>, pos: nat) -> (Seq<Name>, nat)
    decreases s.len() - pos,
{
    let e = name_end(s, pos);
    let next = blanks_end(s, e);
    if pos < e <= next <= s.len() {
        let rest = names_at(s, next);
        (seq![s.subrange(pos as int, e as int)] + rest.0, rest.1)
    } else {
        (Seq::empty(), pos)
    }
}

/// Whether a group starts with `c`.
pub open spec fn starts_group(c: char) -> bool {
    c == '(' || c == '$' || is_name_char(c)
}

/// The group that stands at `pos`, and the place after it: a term in
/// parentheses, a numeral, or a variable.
pub open spec fn group_at(s: Seq<char>, pos: nat) -> Option<(Term, nat)>
    decreases s.len() - pos, 0nat,
{
    if pos >= s.len() {
        None
    } else if s[pos as int] == '(' {
        let p1 = blanks_end(s, pos + 1);
        if pos < p1 <= s.len() {
            match lambda_at(s, p1) {
                Some((t, p2)) => {
                    let p3 = blanks_end(s, p2);
                    if p3 < s.len() && s[p3 as int] == ')' {
                        Some((t, p3 + 1))
                    } else {
                        None
                    }
                },
                None => None,
            }
        } else {
            None
        }
    } else if s[pos as int] == '$' {
        let e = digits_end(s, pos + 1);
        if e > pos + 1 && number_value(s, pos + 1, e) <= u32::MAX {
            Some((Term::Num(number_value(s, pos + 1, e)), e))
        } else {
            None
        }
    } else {
        let e = name_end(s, pos);
        if e > pos {
            Some((Term::Var(s.subrange(pos as int, e as int)), e))
        } else {
            None
        }
    }
}

/// The groups that stand from `pos` on, blanks between them, and the place
/// after them and the blanks that follow; `pos` is past the blanks before
/// the first.
pub open spec fn groups_at(s: Seq<char>, pos: nat) -> Option<(Seq<Term>, nat)>
    decreases s.len() - pos, 1nat,
{
    if pos < s.len() && starts_group(s[pos as int]) {
        match group_at(s, pos) {
            Some((t, p2)) => {
                let next = blanks_end(s, p2);
                if pos < p2 <= next <= s.len() {
                    match groups_at(s, next) {
                        Some((ts, p3)) => Some((seq![t] + ts, p3)),
                        None => None,
                    }
                } else {
                    None
                }
            },
            None => None,
        }
    } else {
        Some((Seq::empty(), pos))
    }
}

/// The term that stands at `pos`, and the place after it and the blanks that
/// follow: an abstraction, `\` or `λ` with the names of its variables, a dot
/// and its body; a macro invocation, `!` with the name of the macro and its
/// arguments; or an application, one group or more side by side.
pub open spec fn lambda_at(s: Seq<char>, pos: nat) -> Option<(Term, nat)>
    decreases s.len() - pos, 2nat,
{
    if pos < s.len() && (s[pos as int] == '\\' || s[pos as int] == 'λ') {
        let p1 = blanks_end(s, pos + 1);
        let (vars, p2) = names_at(s, p1);
        if vars.len() > 0 && p2 < s.len() && s[p2 as int] == '.' {
            let p3 = blanks_end(s, p2 + 1);
            if pos < p3 <= s.len() {
                match lambda_at(s, p3) {
                    Some((body, p4)) => Some((fold_abs(vars, body), p4)),
                    None => None,
                }
            } else {
                None
            }
        } else {
            None
        }
    } else if pos < s.len() && s[pos as int] == '!' {
        let e = name_end(s, pos + 1);
        let p1 = blanks_end(s, e);
        if pos + 1 < e <= p1 <= s.len() {
            match groups_at(s, p1) {
                Some((args, p2)) => match macro_named(s.subrange(pos as int + 1, e as int)) {
                    Some(m) => Some((Term::Deferred(m, args), p2)),
                    None => None,
                },
                None => None,
            }
        } else {
            None
        }
    } else {
        let p1 = blanks_end(s, pos);
        if pos <= p1 <= s.len() {
            match groups_at(s, p1) {
                Some((ts, p2)) => if ts.len() > 0 {
                    Some((fold_app(ts), p2))
                } else {
                    None
                },
                None => None,
            }
        } else {
            None
        }
    }
}

/// What a directive says, as the contracts see it.
pub enum DirectiveModel {
    /// Print the message.
    Echo(Seq<char>),
    /// Interpret the file.
    Include(Seq<char>),
    /// Set the option named first to the value named second.
    SetOption(Name, Name),
    /// Interpret the standard definitions.
    UseStd,
}

/// What a statement says, as the contracts see it.
pub enum StatementModel {
    /// `name := term`
    Assignment(Name, Term),
    /// Nothing.
    Comment,
    /// An order to the interpreter.
    Directive(DirectiveModel),
    /// A term.
    Lambda(Term),
}

/// The place where the line ends that `pos` lies in.
pub open spec fn comment_end(s: Seq<char>, pos: nat) -> nat
    decreases s.len() - pos,
{
    if pos < s.len() && s[pos as int] != '\n' {
        comment_end(s, pos + 1)
    } else {
        pos
    }
}

/// The place of the first double quote or end of line from `pos` on.
pub open spec fn quote_end(s: Seq<char>, pos: nat) -> nat
    decreases s.len() - pos,
{
    if pos < s.len() && s[pos as int] != '"' && s[pos as int] != '\n' {
        quote_end(s, pos + 1)
    } else {
        pos
    }
}

/// A line ends at or after any place in it, within the text.
pub proof fn lemma_comment_end(s: Seq<char>, pos: nat)
    requires
        pos <= s.len(),
    ensures
        pos <= comment_end(s, pos) <= s.len(),
    decreases s.len() - pos,
{
    if pos < s.len() && s[pos as int] != '\n' {
        lemma_comment_end(s, pos + 1);
    }
}

/// The text between double quotes that starts at `pos`, and the place after
/// the closing quote. The text runs to the next double quote and holds no
/// end of line.
pub open spec fn quoted_at(s: Seq<char>, pos: nat) -> Option<(Seq<char>, nat)> {
    if pos < s.len() && s[pos as int] == '"' {
        let q = quote_end(s, pos + 1);
        if pos < q < s.len() && s[q as int] == '"' {
            Some((s.subrange(pos as int + 1, q as int), q + 1))
        } else {
            None
        }
    } else {
        None
    }
}

/// The directive that stands at `pos`, and the place after it: `@usestd`,
/// `@set` with a key and a value, `@echo` with a message in double quotes,
/// or `@include` with the name of a file in double quotes.
pub open spec fn directive_at(s: Seq<char>, pos: nat) -> Option<(DirectiveModel, nat)> {
    if pos < s.len() && s[pos as int] == '@' {
        let e = name_end(s, pos + 1);
        let keyword = s.subrange(pos as int + 1, e as int);
        let p1 = blanks_end(s, e);
        if e <= pos + 1 {
            None
        } else if keyword == "usestd"@ {
            Some((DirectiveModel::UseStd, p1))
        } else if keyword == "set"@ {
            let e1 = name_end(s, p1);
            let p2 = blanks_end(s, e1);
            let e2 = name_end(s, p2);
            if p1 < e1 && p2 < e2 {
                Some(
                    (
                        DirectiveModel::SetOption(
                            s.subrange(p1 as int, e1 as int),
                            s.subrange(p2 as int, e2 as int),
                        ),
                        e2,
                    ),
                )
            } else {
                None
            }
        } else if keyword == "echo"@ {
            match quoted_at(s, p1) {
                Some((text, p)) => Some((DirectiveModel::Echo(text), p)),
                None => None,
            }
        } else if keyword == "include"@ {
            match quoted_at(s, p1) {
                Some((text, p)) => Some((DirectiveModel::Include(text), p)),
                None => None,
            }
        } else {
            None
        }
    } else {
        None
    }
}

/// Whether a line ends at `pos`, for a comment or for good.
pub open spec fn at_line_end(s: Seq<char>, pos: nat) -> bool {
    pos >= s.len() || s[pos as int] == '#' || s[pos as int] == '\n' || s[pos as int] == '\r'
}

/// Whether `:=` stands at `pos`.
pub open spec fn at_assign(s: Seq<char>, pos: nat) -> bool {
    pos + 1 < s.len() && s[pos as int] == ':' && s[pos as int + 1] == '='
}

/// What the statement that starts at `pos` says, and the place after it:
/// nothing, where the line ends there; a directive, where `@` stands there;
/// an assignment, where a name and `:=` stand there, with the term after
/// them; else a term.
pub open spec fn statement_body_at(s: Seq<char>, pos: nat) -> Option<(StatementModel, nat)> {
    if at_line_end(s, pos) {
        Some((StatementModel::Comment, pos))
    } else if s[pos as int] == '@' {
        match directive_at(s, pos) {
            Some((d, p)) => Some((StatementModel::Directive(d), p)),
            None => None,
        }
    } else {
        let e = name_end(s, pos);
        let p1 = blanks_end(s, e);
        if pos < e && at_assign(s, p1) {
            match lambda_at(s, blanks_end(s, p1 + 2)) {
                Some((t, p)) => Some(
                    (StatementModel::Assignment(s.subrange(pos as int, e as int), t), p),
                ),
                None => None,
            }
        } else {
            match lambda_at(s, pos) {
                Some((t, p)) => Some((StatementModel::Lambda(t), p)),
                None => None,
            }
        }
    }
}

/// The place where the line of a statement ends that is over at `pos`: past
/// blanks, a comment from `#` on and a carriage return. `None` if anything
/// else stands before the end of the line.
pub open spec fn statement_end(s: Seq<char>, pos: nat) -> Option<nat> {
    let q = blanks_end(s, pos);
    let q2 = if q < s.len() && s[q as int] == '#' {
        comment_end(s, q)
    } else {
        q
    };
    let q3 = if q2 < s.len() && s[q2 as int] == '\r' {
        q2 + 1
    } else {
        q2
    };
    if q3 >= s.len() || s[q3 as int] == '\n' {
        Some(q3)
    } else {
        None
    }
}

/// What the statement on the line that `pos` lies in says, and the place
/// where the line ends.
pub open spec fn statement_at(s: Seq<char>, pos: nat) -> Option<(StatementModel, nat)> {
    match statement_body_at(s, blanks_end(s, pos)) {
        Some((m, p)) => match statement_end(s, p) {
            Some(q) => Some((m, q)),
            None => None,
        },
        None => None,
    }
}

/// What the text says if it is one statement.
pub open spec fn one_statement(s: Seq<char>) -> Option<StatementModel> {
    match statement_at(s, 0) {
        Some((m, p)) => if p >= s.len() {
            Some(m)
        } else {
            None
        },
        None => None,
    }
}

/// The statement, unless it says nothing.
pub open spec fn unless_comment(m: StatementModel) -> Seq<StatementModel> {
    if m is Comment {
        Seq::empty()
    } else {
        seq![m]
    }
}

/// What the statements say that stand from `pos` on, one to a line; those
/// that say nothing are left out.
pub open spec fn statements_at(s: Seq<char>, pos: nat) -> Option<Seq<StatementModel>>
    decreases s.len() - pos,
{
    match statement_at(s, pos) {
        Some((m, p)) => if pos <= p < s.len() {
            match statements_at(s, p + 1) {
                Some(rest) => Some(unless_comment(m) + rest),
                None => None,
            }
        } else {
            Some(unless_comment(m))
        },
        None => None,
    }
}

} // verus!
