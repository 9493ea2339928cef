use vstd::prelude::*;
use vstd::string::{StrSliceExecFns, StringExecFns};
use crate::error::{LashError, LashErrorType, LashResult};
use crate::grammar::{
    blanks_end,
    digit_of,
    digits_end,
    fold_abs,
    fold_app,
    group_at,
    groups_at,
    is_blank,
    is_name_char,
    lambda_at,
    lemma_blanks_end,
    lemma_digits_end,
    lemma_name_end,
    lemma_number_grows,
    comment_end,
    directive_at,
    lemma_comment_end,
    macro_named,
    name_end,
    one_statement,
    quote_end,
    quoted_at,
    statement_at,
    statement_body_at,
    statement_end,
    statements_at,
    unless_comment,
    DirectiveModel,
    StatementModel,
    names_at,
    number_value,
    starts_group,
};
use crate::interpreter::InterpreterDirective;
use crate::lambda::{terms_view, LambdaTree};
use crate::macros::Macro;
use crate::term::Term;
use crate::text::{decimal_string, names_of, same_text, Name};

verus! {

/// One statement of the language.
#[derive(Debug)]
pub enum Statement {
    /// `name := term`
    Assignment(String, LambdaTree),
    /// A line that says nothing: empty, or a comment from `#` on.
    Comment,
    /// `@` and an order to the interpreter.
    Directive(InterpreterDirective),
    /// A term.
    Lambda(LambdaTree),
}

impl Term {
    /// No named link stands in the term.
    pub open spec fn link_free(self) -> bool
        decreases self,
    {
        match self {
            Term::Var(_) => true,
            Term::Abs(_, b) => b.link_free(),
            Term::App(l, r) => l.link_free() && r.link_free(),
            Term::Named(_, _) => false,
            Term::Num(_) => true,
            Term::Deferred(_, args) => forall|i: int|
                0 <= i < args.len() ==> (#[trigger] args[i]).link_free(),
        }
    }
}

/// What the statements say, in order.
pub open spec fn models_of(v: Seq<Statement>) -> Seq<StatementModel> {
    Seq::new(v.len(), |i: int| v[i].model())
}

impl Statement {
    /// What the statement says.
    pub open spec fn model(&self) -> StatementModel {
        match self {
            Statement::Assignment(name, term) => StatementModel::Assignment(name@, term@),
            Statement::Comment => StatementModel::Comment,
            Statement::Directive(directive) => StatementModel::Directive(directive.model()),
            Statement::Lambda(term) => StatementModel::Lambda(term@),
        }
    }

    /// The statement as it is written.
    pub open spec fn shown(&self) -> Seq<char> {
        match self {
            Statement::Assignment(name, term) => name@ + " := "@ + term@.show(),
            Statement::Comment => Seq::empty(),
            Statement::Directive(directive) => directive.shown(),
            Statement::Lambda(term) => term@.show(),
        }
    }

    /// The statement as it is written.
    pub fn to_string(&self) -> (r: String)
        ensures
            r@ == self.shown(),
    {
        match self {
            Statement::Assignment(name, term) => {
                let mut s = name.clone();
                s.append(" := ");
                s.append(term.to_string().as_str());
                s
            },
            Statement::Comment => String::new(),
            Statement::Directive(directive) => directive.to_string(),
            Statement::Lambda(term) => term.to_string(),
        }
    }

    /// The statement came out of the parser: no term in it holds a named
    /// link.
    pub open spec fn parsed(&self) -> bool {
        match self {
            Statement::Assignment(_, term) => term@.link_free(),
            Statement::Lambda(term) => term@.link_free(),
            _ => true,
        }
    }
}

/// Whether `c` may stand in a name.
fn name_char(c: char) -> (r: bool)
    ensures
        r == is_name_char(c),
{
    ('a' <= c && c <= 'z') || ('A' <= c && c <= 'Z') || ('0' <= c && c <= '9') || c == '_' || c
        == '\''
}

/// The value of the decimal digit `c`, if it is one.
fn digit_value(c: char) -> (r: Option<u32>)
    ensures
        match r {
            Some(d) => d < 10 && digit_of(c) == Some(d as nat),
            None => digit_of(c) is None,
        },
{
    if c == '0' {
        Some(0)
    } else if c == '1' {
        Some(1)
    } else if c == '2' {
        Some(2)
    } else if c == '3' {
        Some(3)
    } else if c == '4' {
        Some(4)
    } else if c == '5' {
        Some(5)
    } else if c == '6' {
        Some(6)
    } else if c == '7' {
        Some(7)
    } else if c == '8' {
        Some(8)
    } else if c == '9' {
        Some(9)
    } else {
        None
    }
}

/// A reader of statements: a text and the place in it that has been reached.
///
/// ```text
/// statement   := assignment | directive | lambda | nothing
/// assignment  := name ":=" lambda
/// directive   := "@usestd" | "@set" name name | "@echo" string | "@include" string
/// lambda      := abstraction | macro | application
/// abstraction := ("\" | "λ") name+ "." lambda
/// macro       := "!" name group*
/// application := group+
/// group       := name | "$" digit+ | "(" lambda ")"
/// ```
///
/// Blanks and tabs may stand between the parts; `#` starts a comment that
/// runs to the end of the line.
pub struct LambdaParser {
    source: String,
    chars: Vec<char>,
    pos: usize,
}

impl LambdaParser {
    /// The invariant: the characters are those of the text, and the place lies
    /// within it.
    pub closed spec fn wf(&self) -> bool {
        &&& self.chars@ == self.source@
        &&& self.pos <= self.chars.len()
    }

    /// The number of characters that are still to be read.
    pub closed spec fn remaining(&self) -> nat {
        (self.chars.len() - self.pos) as nat
    }

    /// The text that is read.
    pub closed spec fn text(&self) -> Seq<char> {
        self.source@
    }

    /// The place that has been reached.
    pub closed spec fn position(&self) -> nat {
        self.pos as nat
    }

    /// The reader is in order and reads the same text as `other`.
    pub open spec fn reads_on(&self, other: &Self) -> bool {
        &&& self.wf()
        &&& self.text() == other.text()
        &&& other.position() <= self.position() <= self.text().len()
        &&& self.remaining() == self.text().len() - self.position()
    }

    /// A reader at the start of `input`.
    pub fn new(input: &str) -> (r: Self)
        ensures
            r.wf(),
            r.text() == input@,
            r.position() == 0,
            r.remaining() == input@.len(),
    {
        let n = input.unicode_len();
        let mut chars: Vec<char> = Vec::new();
        let mut i: usize = 0;
        while i < n
            invariant
                i <= n,
                n == input@.len(),
                chars@ == input@.subrange(0, i as int),
            decreases n - i,
        {
            chars.push(input.get_char(i));
            i += 1;
            assert(chars@ =~= input@.subrange(0, i as int));
        }
        assert(chars@ =~= input@);
        LambdaParser { source: String::from_str(input), chars, pos: 0 }
    }

    /// Whether everything has been read.
    pub fn at_end(&self) -> (r: bool)
        requires
            self.wf(),
        ensures
            r == (self.remaining() == 0),
    {
        self.pos >= self.chars.len()
    }

    /// An error that says what stands at the place reached, and that `what` was
    /// looked for.
    fn unexpected(&self, what: &str) -> (r: LashError)
        requires
            self.wf(),
        ensures
            r.kind() == LashErrorType::SyntaxError,
    {
        let mut description = String::from_str("at character ");
        description.append(decimal_string(self.pos).as_str());
        description.append(": expected ");
        description.append(what);
        if self.pos < self.chars.len() {
            description.append(", found '");
            description.append(self.source.as_str().substring_char(self.pos, self.pos + 1));
            description.append("'");
        } else {
            description.append(", found the end of the text");
        }
        LashError::new_syntax_error(description.as_str())
    }

    /// Passes over blanks and tabs.
    fn skip_blanks(&mut self)
        requires
            old(self).wf(),
        ensures
            final(self).reads_on(old(self)),
            final(self).position() == blanks_end(old(self).text(), old(self).position()),
            final(self).remaining() <= old(self).remaining(),
    {
        while self.pos < self.chars.len() && (self.chars[self.pos] == ' ' || self.chars[self.pos]
            == '\t')
            invariant
                self.reads_on(old(self)),
                blanks_end(self.text(), self.position()) == blanks_end(
                    old(self).text(),
                    old(self).position(),
                ),
            decreases self.chars.len() - self.pos,
        {
            self.pos += 1;
        }
    }

    /// Whether `c` stands at the place reached.
    fn looking_at(&self, c: char) -> (r: bool)
        requires
            self.wf(),
        ensures
            r == (self.position() < self.text().len() && self.text()[self.position() as int] == c),
            r ==> self.remaining() > 0,
    {
        self.pos < self.chars.len() && self.chars[self.pos] == c
    }

    /// Reads `c`, or fails.
    fn expect(&mut self, c: char, what: &str) -> (r: LashResult<()>)
        requires
            old(self).wf(),
        ensures
            final(self).reads_on(old(self)),
            r is Ok <==> old(self).position() < old(self).text().len() && old(self).text()[old(
                self,
            ).position() as int] == c,
            r is Ok ==> final(self).position() == old(self).position() + 1,
            r is Ok ==> final(self).remaining() < old(self).remaining(),
            r is Err ==> final(self).position() == old(self).position(),
            r is Err ==> final(self).remaining() == old(self).remaining(),
            r matches Err(e) ==> e.kind() == LashErrorType::SyntaxError,
    {
        if self.looking_at(c) {
            self.pos += 1;
            Ok(())
        } else {
            Err(self.unexpected(what))
        }
    }

    /// Reads a name, if one stands at the place reached.
    fn read_name(&mut self) -> (r: Option<String>)
        requires
            old(self).wf(),
        ensures
            final(self).reads_on(old(self)),
            final(self).position() == name_end(old(self).text(), old(self).position()),
            match r {
                Some(name) => final(self).position() > old(self).position() && name@ == old(
                    self,
                ).text().subrange(old(self).position() as int, final(self).position() as int)
                    && final(self).remaining() < old(self).remaining(),
                None => final(self).position() == old(self).position() && final(self).remaining()
                    == old(self).remaining(),
            },
    {
        let start = self.pos;
        while self.pos < self.chars.len() && name_char(self.chars[self.pos])
            invariant
                self.reads_on(old(self)),
                start == old(self).pos,
                name_end(self.text(), self.position()) == name_end(
                    old(self).text(),
                    old(self).position(),
                ),
            decreases self.chars.len() - self.pos,
        {
            self.pos += 1;
        }
        if self.pos > start {
            let name = String::from_str(self.source.as_str().substring_char(start, self.pos));
            Some(name)
        } else {
            None
        }
    }

    /// Reads a text between double quotes.
    fn read_quoted(&mut self) -> (r: LashResult<String>)
        requires
            old(self).wf(),
        ensures
            final(self).reads_on(old(self)),
            final(self).remaining() <= old(self).remaining(),
            match r {
                Ok(text) => quoted_at(old(self).text(), old(self).position()) == Some(
                    (text@, final(self).position()),
                ),
                Err(e) => quoted_at(old(self).text(), old(self).position()) is None && e.kind()
                    == LashErrorType::SyntaxError,
            },
    {
        let ghost s = self.text();
        self.expect('"', "'\"'")?;
        let start = self.pos;
        while self.pos < self.chars.len() && self.chars[self.pos] != '"' && self.chars[self.pos]
            != '\n'
            invariant
                self.reads_on(old(self)),
                s == self.text(),
                start == old(self).pos + 1,
                start <= self.pos,
                quote_end(s, self.position()) == quote_end(s, start as nat),
                self.remaining() <= old(self).remaining(),
            decreases self.chars.len() - self.pos,
        {
            self.pos += 1;
        }
        let text = String::from_str(self.source.as_str().substring_char(start, self.pos));
        self.expect('"', "'\"'")?;
        Ok(text)
    }

    /// Reads the digits of a numeral.
    fn read_number(&mut self) -> (r: LashResult<u32>)
        requires
            old(self).wf(),
        ensures
            final(self).reads_on(old(self)),
            match r {
                Ok(v) => final(self).position() == digits_end(
                    old(self).text(),
                    old(self).position(),
                ) && final(self).position() > old(self).position() && v == number_value(
                    old(self).text(),
                    old(self).position(),
                    final(self).position(),
                ) && final(self).remaining() < old(self).remaining(),
                Err(e) => e.kind() == LashErrorType::SyntaxError && !(digits_end(
                    old(self).text(),
                    old(self).position(),
                ) > old(self).position() && number_value(
                    old(self).text(),
                    old(self).position(),
                    digits_end(old(self).text(), old(self).position()),
                ) <= u32::MAX),
            },
    {
        let start = self.pos;
        let ghost s = self.text();
        let mut value: u32 = 0;
        while self.pos < self.chars.len() && digit_value(self.chars[self.pos]).is_some()
            invariant
                self.reads_on(old(self)),
                s == self.text(),
                start == old(self).pos,
                start <= self.pos,
                digits_end(s, self.position()) == digits_end(s, start as nat),
                value == number_value(s, start as nat, self.position()),
            decreases self.chars.len() - self.pos,
        {
            match digit_value(self.chars[self.pos]) {
                Some(d) => {
                    if value > (u32::MAX - d) / 10 {
                        proof {
                            lemma_digits_end(s, (self.pos + 1) as nat);
                            lemma_number_grows(
                                s,
                                start as nat,
                                (self.pos + 1) as nat,
                                digits_end(s, start as nat),
                            );
                        }
                        return Err(self.unexpected("a numeral that fits in 32 bits"));
                    }
                    value = value * 10 + d;
                    self.pos += 1;
                },
                None => {},
            }
        }
        if self.pos > start {
            Ok(value)
        } else {
            Err(self.unexpected("a digit"))
        }
    }

    /// Reads a group: a name, a numeral, or a term in parentheses.
    fn parse_group(&mut self) -> (r: LashResult<LambdaTree>)
        requires
            old(self).wf(),
        ensures
            final(self).reads_on(old(self)),
            match r {
                Ok(t) => group_at(old(self).text(), old(self).position()) == Some(
                    (t@, final(self).position()),
                ) && final(self).position() > old(self).position() && t@.link_free(),
                Err(e) => group_at(old(self).text(), old(self).position()) is None && (e.kind()
                    == LashErrorType::SyntaxError || e.kind() == LashErrorType::UnknownMacroError),
            },
        decreases old(self).remaining(), 0nat,
    {
        let ghost s = self.text();
        if self.looking_at('(') {
            self.pos += 1;
            proof {
                lemma_blanks_end(s, self.position());
            }
            self.skip_blanks();
            let inner = self.parse_lambda()?;
            proof {
                lemma_blanks_end(s, self.position());
            }
            self.skip_blanks();
            self.expect(')', "')'")?;
            Ok(inner)
        } else if self.looking_at('$') {
            self.pos += 1;
            let value = self.read_number()?;
            Ok(LambdaTree::new_church_num(value))
        } else {
            match self.read_name() {
                Some(name) => Ok(LambdaTree::new_variable(name)),
                None => Err(self.unexpected("a name, a numeral or '('")),
            }
        }
    }

    /// Whether a group starts at the place reached.
    fn at_group(&self) -> (r: bool)
        requires
            self.wf(),
        ensures
            r == (self.position() < self.text().len() && starts_group(
                self.text()[self.position() as int],
            )),
    {
        self.pos < self.chars.len() && (self.chars[self.pos] == '(' || self.chars[self.pos] == '$'
            || name_char(self.chars[self.pos]))
    }

    /// Reads groups for as long as one follows, past the blanks before each.
    fn parse_groups(&mut self) -> (r: LashResult<Vec<LambdaTree>>)
        requires
            old(self).wf(),
        ensures
            final(self).reads_on(old(self)),
            match r {
                Ok(ts) => groups_at(
                    old(self).text(),
                    blanks_end(old(self).text(), old(self).position()),
                ) == Some((terms_view(ts@), final(self).position())) && (ts.len() > 0
                    ==> final(self).position() > old(self).position()) && forall|i: int|
                    0 <= i < ts.len() ==> (#[trigger] ts[i])@.link_free(),
                Err(e) => groups_at(
                    old(self).text(),
                    blanks_end(old(self).text(), old(self).position()),
                ) is None && (e.kind() == LashErrorType::SyntaxError || e.kind()
                    == LashErrorType::UnknownMacroError),
            },
        decreases old(self).remaining(), 1nat,
    {
        let ghost s = self.text();
        let mut groups: Vec<LambdaTree> = Vec::new();
        self.skip_blanks();
        let ghost first = self.position();
        assert(terms_view(groups@) =~= Seq::<Term>::empty());
        while self.at_group()
            invariant
                self.reads_on(old(self)),
                s == self.text(),
                first == blanks_end(s, old(self).position()),
                first <= self.position(),
                self.remaining() <= old(self).remaining(),
                groups.len() > 0 ==> self.position() > old(self).position(),
                forall|i: int| 0 <= i < groups.len() ==> (#[trigger] groups[i])@.link_free(),
                groups_at(s, first) == match groups_at(s, self.position()) {
                    Some((rest, end)) => Some((terms_view(groups@) + rest, end)),
                    None => None,
                },
            decreases self.remaining(),
        {
            let ghost before = terms_view(groups@);
            let group = match self.parse_group() {
                Ok(group) => group,
                Err(e) => {
                    return Err(e);
                },
            };
            let ghost after = self.position();
            proof {
                lemma_blanks_end(s, after);
            }
            groups.push(group);
            self.skip_blanks();
            proof {
                assert(terms_view(groups@) =~= before.push(group@));
                match groups_at(s, self.position()) {
                    Some((rest, end)) => {
                        assert(before + (seq![group@] + rest) =~= before.push(group@) + rest);
                    },
                    None => {},
                }
            }
        }
        proof {
            assert(terms_view(groups@) + Seq::<Term>::empty() =~= terms_view(groups@));
        }
        Ok(groups)
    }

    /// Reads a term.
    pub fn parse_lambda(&mut self) -> (r: LashResult<LambdaTree>)
        requires
            old(self).wf(),
        ensures
            final(self).reads_on(old(self)),
            match r {
                Ok(t) => lambda_at(old(self).text(), old(self).position()) == Some(
                    (t@, final(self).position()),
                ) && final(self).position() > old(self).position() && t@.link_free(),
                Err(e) => lambda_at(old(self).text(), old(self).position()) is None && (e.kind()
                    == LashErrorType::SyntaxError || e.kind() == LashErrorType::UnknownMacroError),
            },
        decreases old(self).remaining(), 2nat,
    {
        let ghost s = self.text();
        let ghost start = self.position();
        if self.looking_at('\\') || self.looking_at('λ') {
            self.pos += 1;
            proof {
                lemma_blanks_end(s, self.position());
            }
            self.skip_blanks();
            let ghost first = self.position();
            let mut variables: Vec<String> = Vec::new();
            assert(names_of(variables@) =~= Seq::<Name>::empty());
            let mut more = true;
            while more
                invariant
                    self.reads_on(old(self)),
                    s == self.text(),
                    start < first <= self.position(),
                    names_at(s, first) == (
                        names_of(variables@) + names_at(s, self.position()).0,
                        names_at(s, self.position()).1,
                    ),
                    !more ==> names_at(s, self.position()) == (
                        Seq::<Name>::empty(),
                        self.position(),
                    ),
                decreases self.remaining() + if more { 1nat } else { 0nat },
            {
                let ghost before = names_of(variables@);
                match self.read_name() {
                    Some(name) => {
                        let ghost end = self.position();
                        proof {
                            lemma_blanks_end(s, end);
                        }
                        variables.push(name);
                        self.skip_blanks();
                        proof {
                            assert(names_of(variables@) =~= before.push(name@));
                            assert(before + (seq![name@] + names_at(s, self.position()).0)
                                =~= before.push(name@) + names_at(s, self.position()).0);
                        }
                    },
                    None => {
                        more = false;
                    },
                }
            }
            proof {
                assert(names_of(variables@) + Seq::<Name>::empty() =~= names_of(variables@));
            }
            if variables.len() == 0 {
                return Err(self.unexpected("the name of a variable"));
            }
            self.expect('.', "'.'")?;
            proof {
                lemma_blanks_end(s, self.position());
            }
            self.skip_blanks();
            let mut current = self.parse_lambda()?;
            let ghost all = names_of(variables@);
            let ghost body = current@;
            while variables.len() > 0
                invariant
                    fold_abs(names_of(variables@), current@) == fold_abs(all, body),
                    current@.link_free(),
                decreases variables.len(),
            {
                let ghost before = names_of(variables@);
                let ghost inner = current@;
                match variables.pop() {
                    Some(var) => {
                        current = LambdaTree::new_abstraction(var, current);
                        proof {
                            assert(names_of(variables@) =~= before.drop_last());
                            lemma_fold_abs_last(before, inner);
                        }
                    },
                    None => {},
                }
            }
            proof {
                assert(names_of(variables@) =~= Seq::<Name>::empty());
            }
            Ok(current)
        } else if self.looking_at('!') {
            self.pos += 1;
            let name = match self.read_name() {
                Some(name) => name,
                None => {
                    return Err(self.unexpected("the name of a macro"));
                },
            };
            proof {
                lemma_blanks_end(s, self.position());
            }
            let children = self.parse_groups()?;
            let m = match Macro::from_str(name.as_str()) {
                Ok(m) => m,
                Err(_) => {
                    return Err(LashError::new_unknown_macro_error(name.as_str()));
                },
            };
            proof {
                assert(Macro::names_only(name@, m));
                let chosen = choose|c: Macro| Macro::names_only(name@, c);
                assert(chosen == m);
                assert forall|i: int| 0 <= i < terms_view(children@).len() implies (
                #[trigger] terms_view(children@)[i]).link_free() by {
                    assert(children[i]@.link_free());
                }
            }
            Ok(LambdaTree::new_macro(m, children))
        } else {
            proof {
                lemma_blanks_end(s, start);
            }
            let children = self.parse_groups()?;
            if children.len() == 0 {
                return Err(self.unexpected("a term"));
            }
            let ghost ts = terms_view(children@);
            let mut current = children[0].clone();
            let mut k: usize = 1;
            assert(ts.subrange(0, 1).first() == ts[0]);
            while k < children.len()
                invariant
                    1 <= k <= children.len(),
                    ts == terms_view(children@),
                    current@ == fold_app(ts.subrange(0, k as int)),
                    current@.link_free(),
                    forall|i: int| 0 <= i < children.len() ==> (#[trigger] children[i])@.link_free(),
                decreases children.len() - k,
            {
                current = LambdaTree::new_application(current, children[k].clone());
                proof {
                    assert(ts.subrange(0, k + 1).drop_last() =~= ts.subrange(0, k as int));
                    assert(ts.subrange(0, k + 1).last() == ts[k as int]);
                }
                k += 1;
            }
            proof {
                assert(ts.subrange(0, ts.len() as int) =~= ts);
            }
            Ok(current)
        }
    }

    /// Reads a directive, the `@` before it included.
    fn parse_directive(&mut self) -> (r: LashResult<InterpreterDirective>)
        requires
            old(self).wf(),
        ensures
            final(self).reads_on(old(self)),
            final(self).remaining() <= old(self).remaining(),
            match r {
                Ok(d) => directive_at(old(self).text(), old(self).position()) == Some(
                    (d.model(), final(self).position()),
                ),
                Err(e) => directive_at(old(self).text(), old(self).position()) is None && e.kind()
                    == LashErrorType::SyntaxError,
            },
    {
        let ghost s = self.text();
        self.expect('@', "'@'")?;
        let keyword = match self.read_name() {
            Some(keyword) => keyword,
            None => {
                return Err(self.unexpected("the name of a directive"));
            },
        };
        proof {
            lemma_blanks_end(s, self.position());
        }
        self.skip_blanks();
        if same_text(keyword.as_str(), "usestd") {
            Ok(InterpreterDirective::UseStd)
        } else if same_text(keyword.as_str(), "set") {
            let key = match self.read_name() {
                Some(key) => key,
                None => {
                    return Err(self.unexpected("a key"));
                },
            };
            proof {
                lemma_blanks_end(s, self.position());
            }
            self.skip_blanks();
            let value = match self.read_name() {
                Some(value) => value,
                None => {
                    return Err(self.unexpected("a value"));
                },
            };
            Ok(InterpreterDirective::SetOption(key, value))
        } else if same_text(keyword.as_str(), "echo") {
            let message = self.read_quoted()?;
            Ok(InterpreterDirective::Echo(message))
        } else if same_text(keyword.as_str(), "include") {
            let file = self.read_quoted()?;
            Ok(InterpreterDirective::Include(file))
        } else {
            Err(self.unexpected("usestd, set, echo or include"))
        }
    }

    /// Whether `:=` stands at the place reached.
    fn at_assign(&self) -> (r: bool)
        requires
            self.wf(),
        ensures
            r == crate::grammar::at_assign(self.text(), self.position()),
            r ==> self.remaining() >= 2,
    {
        self.pos < self.chars.len() && self.pos + 1 < self.chars.len() && self.chars[self.pos]
            == ':' && self.chars[self.pos + 1] == '='
    }

    /// Whether a comment or the end of the line stands at the place reached.
    fn at_line_end(&self) -> (r: bool)
        requires
            self.wf(),
        ensures
            r == crate::grammar::at_line_end(self.text(), self.position()),
    {
        self.pos >= self.chars.len() || self.chars[self.pos] == '#' || self.chars[self.pos] == '\n'
            || self.chars[self.pos] == '\r'
    }

    /// Reads what a statement says, from its first character on.
    fn parse_statement_body(&mut self) -> (r: LashResult<Statement>)
        requires
            old(self).wf(),
        ensures
            final(self).reads_on(old(self)),
            match r {
                Ok(st) => statement_body_at(old(self).text(), old(self).position()) == Some(
                    (st.model(), final(self).position()),
                ) && st.parsed(),
                Err(e) => statement_body_at(old(self).text(), old(self).position()) is None && (
                e.kind() == LashErrorType::SyntaxError || e.kind()
                    == LashErrorType::UnknownMacroError),
            },
    {
        let ghost s = self.text();
        if self.at_line_end() {
            Ok(Statement::Comment)
        } else if self.looking_at('@') {
            let directive = self.parse_directive()?;
            Ok(Statement::Directive(directive))
        } else {
            let start = self.pos;
            let mut assigned: Option<String> = None;
            match self.read_name() {
                Some(name) => {
                    proof {
                        lemma_blanks_end(s, self.position());
                    }
                    self.skip_blanks();
                    if self.at_assign() {
                        self.pos += 2;
                        proof {
                            lemma_blanks_end(s, self.position());
                        }
                        self.skip_blanks();
                        assigned = Some(name);
                    } else {
                        self.pos = start;
                    }
                },
                None => {},
            }
            let term = self.parse_lambda()?;
            match assigned {
                Some(name) => Ok(Statement::Assignment(name, term)),
                None => Ok(Statement::Lambda(term)),
            }
        }
    }

    /// Reads one statement, up to the end of its line.
    pub fn parse_single_statement(&mut self) -> (r: LashResult<Statement>)
        requires
            old(self).wf(),
        ensures
            final(self).reads_on(old(self)),
            final(self).remaining() <= old(self).remaining(),
            match r {
                Ok(st) => statement_at(old(self).text(), old(self).position()) == Some(
                    (st.model(), final(self).position()),
                ) && st.parsed() && (final(self).position() >= final(self).text().len()
                    || final(self).text()[final(self).position() as int] == '\n'),
                Err(e) => statement_at(old(self).text(), old(self).position()) is None && (e.kind()
                    == LashErrorType::SyntaxError || e.kind() == LashErrorType::UnknownMacroError),
            },
    {
        let ghost s = self.text();
        proof {
            lemma_blanks_end(s, self.position());
        }
        self.skip_blanks();
        let statement = self.parse_statement_body()?;
        let ghost after = self.position();
        proof {
            lemma_blanks_end(s, after);
        }
        self.skip_blanks();
        if self.looking_at('#') {
            let ghost from = self.position();
            while self.pos < self.chars.len() && self.chars[self.pos] != '\n'
                invariant
                    self.reads_on(old(self)),
                    s == self.text(),
                    comment_end(s, self.position()) == comment_end(s, from),
                decreases self.chars.len() - self.pos,
            {
                self.pos += 1;
            }
        }
        if self.looking_at('\r') {
            self.pos += 1;
        }
        if self.pos < self.chars.len() && self.chars[self.pos] != '\n' {
            return Err(self.unexpected("the end of the statement"));
        }
        Ok(statement)
    }

    /// Reads statements, one to a line, to the end of the text. Lines that say
    /// nothing are left out.
    pub fn parse_multi_statement(&mut self) -> (r: LashResult<Vec<Statement>>)
        requires
            old(self).wf(),
        ensures
            final(self).wf(),
            match r {
                Ok(v) => statements_at(old(self).text(), old(self).position()) == Some(
                    models_of(v@),
                ) && forall|i: int| 0 <= i < v.len() ==> (#[trigger] v[i]).parsed(),
                Err(e) => statements_at(old(self).text(), old(self).position()) is None && (
                e.kind() == LashErrorType::SyntaxError || e.kind()
                    == LashErrorType::UnknownMacroError),
            },
    {
        let ghost s = self.text();
        let ghost first = self.position();
        let mut statements: Vec<Statement> = Vec::new();
        let mut more = true;
        assert(models_of(statements@) =~= Seq::<StatementModel>::empty());
        while more
            invariant
                self.reads_on(old(self)),
                s == self.text(),
                first == old(self).position(),
                forall|i: int| 0 <= i < statements.len() ==> (#[trigger] statements[i]).parsed(),
                more ==> statements_at(s, first) == match statements_at(s, self.position()) {
                    Some(rest) => Some(models_of(statements@) + rest),
                    None => None,
                },
                !more ==> statements_at(s, first) == Some(models_of(statements@)),
            decreases self.remaining() + if more { 1nat } else { 0nat },
        {
            let ghost before = models_of(statements@);
            let statement = match self.parse_single_statement() {
                Ok(statement) => statement,
                Err(e) => {
                    return Err(e);
                },
            };
            let ghost said = statement.model();
            match statement {
                Statement::Comment => {
                    proof {
                        assert(before + unless_comment(said) =~= before);
                    }
                },
                _ => {
                    statements.push(statement);
                    proof {
                        assert(models_of(statements@) =~= before + unless_comment(said));
                    }
                },
            }
            if self.looking_at('\n') {
                self.pos += 1;
                proof {
                    match statements_at(s, self.position()) {
                        Some(rest) => {
                            assert(before + (unless_comment(said) + rest) =~= (before
                                + unless_comment(said)) + rest);
                        },
                        None => {},
                    }
                }
            } else {
                more = false;
            }
        }
        Ok(statements)
    }
}

/// Reads `input` as one statement.
pub fn parse_statement(input: &str) -> (r: LashResult<Statement>)
    ensures
        match r {
            Ok(st) => one_statement(input@) == Some(st.model()) && st.parsed(),
            Err(e) => one_statement(input@) is None && (e.kind() == LashErrorType::SyntaxError
                || e.kind() == LashErrorType::UnknownMacroError),
        },
{
    let mut parser = LambdaParser::new(input);
    let statement = parser.parse_single_statement()?;
    if parser.at_end() {
        Ok(statement)
    } else {
        Err(parser.unexpected("the end of the text"))
    }
}

/// Reads `input` as statements, one to a line.
pub fn parse_statements(input: &str) -> (r: LashResult<Vec<Statement>>)
    ensures
        match r {
            Ok(v) => statements_at(input@, 0) == Some(models_of(v@)) && forall|i: int|
                0 <= i < v.len() ==> (#[trigger] v[i]).parsed(),
            Err(e) => statements_at(input@, 0) is None && (e.kind() == LashErrorType::SyntaxError
                || e.kind() == LashErrorType::UnknownMacroError),
        },
{
    let mut parser = LambdaParser::new(input);
    parser.parse_multi_statement()
}

/// Abstracting over names one after the other, the last innermost, is
/// abstracting over all but the last the abstraction over the last.
pub proof fn lemma_fold_abs_last(vars: Seq<Name>, body: Term)
    requires
        vars.len() > 0,
    ensures
        fold_abs(vars, body) == fold_abs(
            vars.drop_last(),
            Term::Abs(vars.last(), Box::new(body)),
        ),
    decreases vars.len(),
{
    reveal_with_fuel(fold_abs, 2);
    if vars.len() == 1 {
        assert(vars.drop_first() =~= Seq::<Name>::empty());
        assert(vars.drop_last() =~= Seq::<Name>::empty());
    } else {
        lemma_fold_abs_last(vars.drop_first(), body);
        assert(vars.drop_first().drop_last() =~= vars.drop_last().drop_first());
        assert(vars.drop_first().last() == vars.last());
        assert(vars.drop_last().first() == vars.first());
    }
}

} // verus!
