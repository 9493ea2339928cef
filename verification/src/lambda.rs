use std::rc::Rc;
use vstd::prelude::*;
use vstd::string::StringExecFns;
use crate::debruijn::DeBruijnNode;
use crate::macros::Macro;
use crate::term::{church, church_body, name_f, name_x, registry_find, Term};
use crate::text::{decimal_string, names_of, Name};

verus! {

/// One node of a term, with its children.
#[derive(Debug)]
pub enum LambdaNode {
    Abstraction(String, LambdaTree),
    Application(LambdaTree, LambdaTree),
    Macro(Macro, Vec<LambdaTree>),
    Named(Rc<NamedTerm>),
    Variable(String),
    ChurchNum(u32),
}

/// A term stored under a name.
#[derive(Debug)]
pub struct NamedTerm {
    name: String,
    term: LambdaTree,
}

/// A lambda term: an immutable tree whose subtrees may be shared.
#[derive(Debug)]
pub struct LambdaTree(Rc<LambdaNode>);

/// `Rc::clone`: a second pointer to the same allocation, and so to the same value.
#[verifier::external_body]
pub(crate) fn share<T>(rc: &Rc<T>) -> (r: Rc<T>)
    ensures
        r == rc,
{
    Rc::clone(rc)
}

impl LambdaTree {
    /// The term that the tree denotes.
    pub closed spec fn model(&self) -> Term
        decreases self,
    {
        (*self.0).model()
    }
}

impl NamedTerm {
    /// The name under which the term is stored.
    pub closed spec fn spec_name(&self) -> Seq<char> {
        self.name@
    }

    /// The term that is stored.
    pub closed spec fn spec_term(&self) -> Term
        decreases self,
    {
        self.term.model()
    }
}

impl LambdaNode {
    /// The term that the node denotes, with what stands below it.
    pub open spec fn model(&self) -> Term
        decreases self,
    {
        match self {
            LambdaNode::Abstraction(x, b) => Term::Abs(x@, Box::new(b.model())),
            LambdaNode::Application(l, r) => Term::App(Box::new(l.model()), Box::new(r.model())),
            LambdaNode::Macro(m, ts) => Term::Deferred(
                *m,
                Seq::new(
                    ts.len() as nat,
                    |i: int| if 0 <= i < ts.len() { ts[i].model() } else { Term::Num(0) },
                ),
            ),
            LambdaNode::Named(n) => Term::Named(n.spec_name(), Box::new(n.spec_term())),
            LambdaNode::Variable(x) => Term::Var(x@),
            LambdaNode::ChurchNum(d) => Term::Num(*d as nat),
        }
    }
}

impl View for LambdaTree {
    type V = Term;

    open spec fn view(&self) -> Term {
        self.model()
    }
}

impl View for LambdaNode {
    type V = Term;

    open spec fn view(&self) -> Term {
        self.model()
    }
}

impl View for NamedTerm {
    type V = (Seq<char>, Term);

    open spec fn view(&self) -> (Seq<char>, Term) {
        (self.spec_name(), self.spec_term())
    }
}

impl Clone for LambdaTree {
    fn clone(&self) -> (r: Self)
        ensures
            r == *self,
    {
        LambdaTree(share(&self.0))
    }
}

impl Clone for NamedTerm {
    fn clone(&self) -> (r: Self)
        ensures
            r@ == self@,
    {
        NamedTerm { name: self.name.clone(), term: self.term.clone() }
    }
}

impl Clone for LambdaNode {
    fn clone(&self) -> (r: Self)
        ensures
            r@ == self@,
    {
        match self {
            LambdaNode::Abstraction(x, b) => LambdaNode::Abstraction(x.clone(), b.clone()),
            LambdaNode::Application(l, a) => LambdaNode::Application(l.clone(), a.clone()),
            LambdaNode::Macro(m, ts) => {
                let mut out: Vec<LambdaTree> = Vec::new();
                let mut i: usize = 0;
                while i < ts.len()
                    invariant
                        i <= ts.len(),
                        out.len() == i,
                        forall|j: int| 0 <= j < i ==> (#[trigger] out[j])@ == ts[j]@,
                    decreases ts.len() - i,
                {
                    out.push(ts[i].clone());
                    i += 1;
                }
                let copy = LambdaNode::Macro(*m, out);
                proof {
                    assert(copy@->Deferred_1 =~= self@->Deferred_1);
                }
                copy
            },
            LambdaNode::Named(n) => LambdaNode::Named(share(n)),
            LambdaNode::Variable(x) => LambdaNode::Variable(x.clone()),
            LambdaNode::ChurchNum(d) => LambdaNode::ChurchNum(*d),
        }
    }
}

impl NamedTerm {
    /// The term `term`, stored under `name`.
    pub fn new(name: String, term: LambdaTree) -> (r: Self)
        ensures
            r@ == (name@, term@),
    {
        NamedTerm { name, term }
    }

    /// The stored term.
    pub fn term(&self) -> (r: LambdaTree)
        ensures
            r@ == self@.1,
    {
        self.term.clone()
    }

    /// The name under which the term is stored.
    pub fn name(&self) -> (r: &String)
        ensures
            r@ == self@.0,
    {
        &self.name
    }
}

impl LambdaTree {
    /// The abstraction `\var . term`.
    pub fn new_abstraction(var: String, term: Self) -> (r: Self)
        ensures
            r@ == Term::Abs(var@, Box::new(term@)),
    {
        LambdaTree(Rc::new(LambdaNode::Abstraction(var, term)))
    }

    /// The application of `left_term` to `right_term`.
    pub fn new_application(left_term: Self, right_term: Self) -> (r: Self)
        ensures
            r@ == Term::App(Box::new(left_term@), Box::new(right_term@)),
    {
        LambdaTree(Rc::new(LambdaNode::Application(left_term, right_term)))
    }

    /// The numeral literal for `denominator`.
    pub fn new_church_num(denominator: u32) -> (r: Self)
        ensures
            r@ == Term::Num(denominator as nat),
    {
        LambdaTree(Rc::new(LambdaNode::ChurchNum(denominator)))
    }

    /// The invocation of the macro `m` with the arguments `terms`.
    pub fn new_macro(m: Macro, terms: Vec<Self>) -> (r: Self)
        ensures
            r@ == Term::Deferred(m, terms_view(terms@)),
    {
        let ghost want = terms_view(terms@);
        let node = LambdaNode::Macro(m, terms);
        proof {
            assert(node@->Deferred_1 =~= want);
        }
        LambdaTree(Rc::new(node))
    }

    /// The variable named `name`.
    pub fn new_variable(name: String) -> (r: Self)
        ensures
            r@ == Term::Var(name@),
    {
        LambdaTree(Rc::new(LambdaNode::Variable(name)))
    }

    /// A link to a stored term.
    pub fn new_named(named: Rc<NamedTerm>) -> (r: Self)
        ensures
            r@ == Term::Named((*named)@.0, Box::new((*named)@.1)),
    {
        LambdaTree(Rc::new(LambdaNode::Named(named)))
    }

    /// The root node.
    pub fn node(&self) -> (r: &LambdaNode)
        ensures
            r@ == self@,
    {
        &*self.0
    }

    /// Whether the term is an abstraction.
    pub fn is_abstraction(&self) -> (r: bool)
        ensures
            r == (self@ is Abs),
    {
        match self.node() {
            LambdaNode::Abstraction(..) => true,
            _ => false,
        }
    }

    /// Whether the term is an application.
    pub fn is_application(&self) -> (r: bool)
        ensures
            r == (self@ is App),
    {
        match self.node() {
            LambdaNode::Application(..) => true,
            _ => false,
        }
    }

    /// Whether the term is a numeral literal.
    pub fn is_church_num(&self) -> (r: bool)
        ensures
            r == (self@ is Num),
    {
        match self.node() {
            LambdaNode::ChurchNum(..) => true,
            _ => false,
        }
    }

    /// Whether the term is a link to a stored term.
    pub fn is_named(&self) -> (r: bool)
        ensures
            r == (self@ is Named),
    {
        match self.node() {
            LambdaNode::Named(..) => true,
            _ => false,
        }
    }

    /// Whether the term is a variable.
    pub fn is_variable(&self) -> (r: bool)
        ensures
            r == (self@ is Var),
    {
        match self.node() {
            LambdaNode::Variable(..) => true,
            _ => false,
        }
    }

    /// Whether the term is written in parentheses where it stands: to the left
    /// of an application if `left_of_appl`, elsewhere in one if not.
    pub fn needs_parenthesis(&self, left_of_appl: bool) -> (r: bool)
        ensures
            r == self@.needs_paren(left_of_appl),
    {
        !(self.is_named() || self.is_variable() || self.is_church_num() || (left_of_appl
            && self.is_application()))
    }
}

/// `n`, or the largest number that a `usize` holds if `n` is above it.
pub open spec fn capped(n: nat) -> nat {
    if n <= usize::MAX {
        n
    } else {
        usize::MAX as nat
    }
}

/// The string `"'"`, the mark that sets a renamed binder apart.
fn prime() -> (r: &'static str)
    ensures
        r@ == seq!['\''],
{
    let r = "'";
    proof {
        reveal_strlit("'");
        assert(r@ =~= seq!['\'']);
    }
    r
}

impl LambdaTree {
    /// Whether `variable` occurs free in the term, named links looked through.
    pub fn contains_free_variable(&self, variable: &str) -> (r: bool)
        ensures
            r == self@.has_free(variable@),
    {
        let name = String::from_str(variable);
        self.has_free_name(&name)
    }

    /// Whether some abstraction in the term binds `variable`, named links
    /// looked through.
    pub fn contains_bound_variable(&self, variable: &str) -> (r: bool)
        ensures
            r == self@.has_binder(variable@),
    {
        let name = String::from_str(variable);
        self.has_binder_name(&name)
    }

    #[verifier::loop_isolation(false)]
    fn has_free_name(&self, variable: &String) -> (r: bool)
        ensures
            r == self@.has_free(variable@),
        decreases self@.size(),
    {
        match self.node() {
            LambdaNode::Abstraction(var, term) => {
                if *var == *variable {
                    false
                } else {
                    term.has_free_name(variable)
                }
            },
            LambdaNode::Application(left_term, right_term) => {
                left_term.has_free_name(variable) || right_term.has_free_name(variable)
            },
            LambdaNode::Variable(var) => *var == *variable,
            LambdaNode::Macro(_, terms) => {
                let ghost args = self@->Deferred_1;
                let mut i: usize = 0;
                while i < terms.len()
                    invariant
                        i <= terms.len(),
                        forall|j: int| 0 <= j < i ==> !(#[trigger] args[j]).has_free(variable@),
                    decreases terms.len() - i,
                {
                    assert(args[i as int] == terms[i as int]@);
                    proof {
                        self@.lemma_arg_size(i as int);
                    }
                    if terms[i].has_free_name(variable) {
                        return true;
                    }
                    i += 1;
                }
                false
            },
            LambdaNode::Named(named) => named.term.has_free_name(variable),
            LambdaNode::ChurchNum(_) => false,
        }
    }

    #[verifier::loop_isolation(false)]
    fn has_binder_name(&self, variable: &String) -> (r: bool)
        ensures
            r == self@.has_binder(variable@),
        decreases self@.size(),
    {
        match self.node() {
            LambdaNode::Abstraction(var, term) => {
                if *var == *variable {
                    true
                } else {
                    term.has_binder_name(variable)
                }
            },
            LambdaNode::Application(left_term, right_term) => {
                left_term.has_binder_name(variable) || right_term.has_binder_name(variable)
            },
            LambdaNode::Variable(_) => false,
            LambdaNode::Macro(_, terms) => {
                let ghost args = self@->Deferred_1;
                let mut i: usize = 0;
                while i < terms.len()
                    invariant
                        i <= terms.len(),
                        forall|j: int| 0 <= j < i ==> !(#[trigger] args[j]).has_binder(variable@),
                    decreases terms.len() - i,
                {
                    assert(args[i as int] == terms[i as int]@);
                    proof {
                        self@.lemma_arg_size(i as int);
                    }
                    if terms[i].has_binder_name(variable) {
                        return true;
                    }
                    i += 1;
                }
                false
            },
            LambdaNode::Named(named) => named.term.has_binder_name(variable),
            LambdaNode::ChurchNum(_) => false,
        }
    }

    /// Whether a numeral literal stands somewhere in the term.
    #[verifier::loop_isolation(false)]
    pub fn has_church_nums(&self) -> (r: bool)
        ensures
            r == self@.has_nums(),
        decreases self@.size(),
    {
        match self.node() {
            LambdaNode::Abstraction(_, term) => term.has_church_nums(),
            LambdaNode::Application(left_term, right_term) => {
                left_term.has_church_nums() || right_term.has_church_nums()
            },
            LambdaNode::Variable(_) => false,
            LambdaNode::Macro(_, terms) => {
                let ghost args = self@->Deferred_1;
                let mut i: usize = 0;
                while i < terms.len()
                    invariant
                        i <= terms.len(),
                        forall|j: int| 0 <= j < i ==> !(#[trigger] args[j]).has_nums(),
                    decreases terms.len() - i,
                {
                    assert(args[i as int] == terms[i as int]@);
                    proof {
                        self@.lemma_arg_size(i as int);
                    }
                    if terms[i].has_church_nums() {
                        return true;
                    }
                    i += 1;
                }
                false
            },
            LambdaNode::Named(named) => named.term.has_church_nums(),
            LambdaNode::ChurchNum(_) => true,
        }
    }

    /// The abstraction that the numeral `denominator` stands for.
    pub fn unwrap_church_num(denominator: u32) -> (r: Self)
        ensures
            r@ == church(denominator as nat),
    {
        proof {
            reveal_strlit("x");
            reveal_strlit("f");
            assert("x"@ =~= name_x());
            assert("f"@ =~= name_f());
        }
        let mut inner = Self::new_variable(String::from_str("x"));
        let mut i: u32 = 0;
        while i < denominator
            invariant
                i <= denominator,
                inner@ == church_body(i as nat),
                "f"@ == name_f(),
            decreases denominator - i,
        {
            inner = Self::new_application(Self::new_variable(String::from_str("f")), inner);
            i += 1;
        }
        Self::new_abstraction(
            String::from_str("f"),
            Self::new_abstraction(String::from_str("x"), inner),
        )
    }

    /// The term with every named link replaced by what it links to and every
    /// numeral by the abstraction it stands for.
    #[verifier::loop_isolation(false)]
    pub fn resolve(&self) -> (r: Self)
        ensures
            r@ == self@.resolve(),
        decreases self@.size(),
    {
        match self.node() {
            LambdaNode::Abstraction(var, inner_term) => {
                Self::new_abstraction(var.clone(), inner_term.resolve())
            },
            LambdaNode::Application(left_term, right_term) => {
                Self::new_application(left_term.resolve(), right_term.resolve())
            },
            LambdaNode::Macro(m, terms) => {
                let ghost args = self@->Deferred_1;
                let mut out: Vec<LambdaTree> = Vec::new();
                let mut i: usize = 0;
                while i < terms.len()
                    invariant
                        i <= terms.len(),
                        out.len() == i,
                        forall|j: int| 0 <= j < i ==> (#[trigger] out[j])@ == args[j].resolve(),
                    decreases terms.len() - i,
                {
                    assert(args[i as int] == terms[i as int]@);
                    proof {
                        self@.lemma_arg_size(i as int);
                    }
                    let t = terms[i].resolve();
                    out.push(t);
                    i += 1;
                }
                proof {
                    assert(terms_view(out@) =~= self@.resolve()->Deferred_1);
                }
                Self::new_macro(*m, out)
            },
            LambdaNode::Variable(_) => self.clone(),
            LambdaNode::Named(term) => term.term.resolve(),
            LambdaNode::ChurchNum(d) => Self::unwrap_church_num(*d),
        }
    }

    /// The term with the free occurrences of `from` outside numerals and named
    /// links renamed to `to`, with no regard to capture.
    #[verifier::loop_isolation(false)]
    fn rename_free(&self, from: &String, to: &String) -> (r: Self)
        ensures
            r@ == self@.replace_free(from@, to@),
        decreases self@.size(),
    {
        match self.node() {
            LambdaNode::Abstraction(var, inner_term) => {
                if *var == *from {
                    self.clone()
                } else {
                    Self::new_abstraction(var.clone(), inner_term.rename_free(from, to))
                }
            },
            LambdaNode::Application(left_term, right_term) => {
                Self::new_application(
                    left_term.rename_free(from, to),
                    right_term.rename_free(from, to),
                )
            },
            LambdaNode::Variable(var_name) => {
                if *var_name == *from {
                    Self::new_variable(to.clone())
                } else {
                    self.clone()
                }
            },
            LambdaNode::Macro(m, terms) => {
                let ghost args = self@->Deferred_1;
                let mut out: Vec<LambdaTree> = Vec::new();
                let mut i: usize = 0;
                while i < terms.len()
                    invariant
                        i <= terms.len(),
                        out.len() == i,
                        forall|j: int|
                            0 <= j < i ==> (#[trigger] out[j])@ == args[j].replace_free(
                                from@,
                                to@,
                            ),
                    decreases terms.len() - i,
                {
                    assert(args[i as int] == terms[i as int]@);
                    proof {
                        self@.lemma_arg_size(i as int);
                    }
                    let t = terms[i].rename_free(from, to);
                    out.push(t);
                    i += 1;
                }
                proof {
                    assert(terms_view(out@) =~= self@.replace_free(from@, to@)->Deferred_1);
                }
                Self::new_macro(*m, out)
            },
            LambdaNode::Named(_) => self.clone(),
            LambdaNode::ChurchNum(_) => self.clone(),
        }
    }

    /// Whether `candidate` may not name the binder of `body` once `term` has
    /// been put into it for `name`.
    fn is_rotten(candidate: &String, body: &LambdaTree, name: &String, term: &LambdaTree) -> (r: bool)
        ensures
            r == Term::rotten(candidate@, body@, name@, term@),
    {
        *candidate == *name || term.has_free_name(candidate) || body.has_free_name(candidate)
            || body.has_binder_name(candidate)
    }

    /// `name` with one prime appended.
    fn with_prime(name: &String) -> (r: String)
        ensures
            r@ == Term::primed(name@),
    {
        let mut primed = name.clone();
        primed.append(prime());
        assert(primed@ =~= name@.push('\''));
        primed
    }

    /// The name that takes the place of the binder `var` of `body` when `term`
    /// is put into `body` for `name`: `var` with up to three primes, then with
    /// a number, then with more primes, the first that is not rotten.
    #[verifier::loop_isolation(false)]
    fn fresh_name(var: &String, body: &LambdaTree, name: &String, term: &LambdaTree) -> (r: String)
        ensures
            r@ == Term::fresh(var@, body@, name@, term@),
    {
        let one = Self::with_prime(var);
        if !Self::is_rotten(&one, body, name, term) {
            return one;
        }
        let two = Self::with_prime(&one);
        if !Self::is_rotten(&two, body, name, term) {
            return two;
        }
        let three = Self::with_prime(&two);
        if !Self::is_rotten(&three, body, name, term) {
            return three;
        }
        let mut n: usize = 0;
        let mut exhausted = false;
        while !exhausted
            invariant
                !exhausted ==> Term::first_numbered(var@, n as nat, body@, name@, term@)
                    == Term::first_numbered(var@, 0, body@, name@, term@),
                exhausted ==> Term::first_numbered(var@, 0, body@, name@, term@) is None,
            decreases usize::MAX - n + if exhausted { 0int } else { 1int },
        {
            let mut numbered = var.clone();
            numbered.append(decimal_string(n).as_str());
            if !Self::is_rotten(&numbered, body, name, term) {
                return numbered;
            }
            if n == usize::MAX {
                exhausted = true;
            } else {
                n += 1;
            }
        }
        let mut fresh_var = Self::with_prime(&three);
        let ghost start = fresh_var@;
        while Self::is_rotten(&fresh_var, body, name, term)
            invariant
                Term::fresh_from(fresh_var@, body@, name@, term@) == Term::fresh_from(
                    start,
                    body@,
                    name@,
                    term@,
                ),
            decreases body@.len_bound() + term@.len_bound() + name@.len() + 1 - fresh_var@.len(),
        {
            proof {
                if term@.has_free(fresh_var@) {
                    term@.lemma_len_bound(fresh_var@);
                }
                if body@.mentions(fresh_var@) {
                    body@.lemma_len_bound(fresh_var@);
                }
            }
            fresh_var = Self::with_prime(&fresh_var);
        }
        fresh_var
    }

    /// Capture-avoiding substitution: the term with `term` in place of every
    /// free occurrence of `name`, and the number of occurrences replaced. A
    /// binder that would capture a free variable of `term` is renamed first, to
    /// its own name with primes appended. Numerals and named links are left as
    /// they are. The count stops at the largest `usize`.
    pub fn substitute(&self, name: &str, term: LambdaTree) -> (r: (Self, usize))
        ensures
            r.0@ == self@.subst(name@, term@),
            r.1 == capped(self@.free_count(name@)),
    {
        let name = String::from_str(name);
        self.substitute_name(&name, &term)
    }

    #[verifier::loop_isolation(false)]
    pub(crate) fn substitute_name(&self, name: &String, term: &LambdaTree) -> (r: (Self, usize))
        ensures
            r.0@ == self@.subst(name@, term@),
            r.1 == capped(self@.free_count(name@)),
        decreases self@.size(),
    {
        match self.node() {
            LambdaNode::Abstraction(var, inner_term) => {
                if *var == *name {
                    (self.clone(), 0)
                } else if term.has_free_name(var) {
                    // a free variable of `term` would be captured
                    let fresh_var = Self::fresh_name(var, inner_term, name, term);
                    let renamed = inner_term.rename_free(var, &fresh_var);
                    proof {
                        inner_term@.lemma_replace_free_size(var@, fresh_var@);
                        Term::lemma_fresh_not_rotten(var@, inner_term@, name@, term@);
                        inner_term@.lemma_replace_free_count(var@, fresh_var@, name@);
                    }
                    let (new_inner, count) = renamed.substitute_name(name, term);
                    (Self::new_abstraction(fresh_var, new_inner), count)
                } else {
                    let (new_inner, count) = inner_term.substitute_name(name, term);
                    (Self::new_abstraction(var.clone(), new_inner), count)
                }
            },
            LambdaNode::Application(left_term, right_term) => {
                let (new_left_term, left_count) = left_term.substitute_name(name, term);
                let (new_right_term, right_count) = right_term.substitute_name(name, term);
                (
                    Self::new_application(new_left_term, new_right_term),
                    left_count.saturating_add(right_count),
                )
            },
            LambdaNode::Variable(var_name) => {
                if *var_name == *name {
                    (term.clone(), 1)
                } else {
                    (self.clone(), 0)
                }
            },
            LambdaNode::Macro(m, terms) => {
                let ghost args = self@->Deferred_1;
                let mut out: Vec<LambdaTree> = Vec::new();
                let mut count: usize = 0;
                let mut i: usize = 0;
                while i < terms.len()
                    invariant
                        i <= terms.len(),
                        out.len() == i,
                        forall|j: int|
                            0 <= j < i ==> (#[trigger] out[j])@ == args[j].subst(name@, term@),
                        count == capped(Term::free_count_sum(args, i as nat, name@)),
                    decreases terms.len() - i,
                {
                    assert(args[i as int] == terms[i as int]@);
                    proof {
                        self@.lemma_arg_size(i as int);
                    }
                    let (t, c) = terms[i].substitute_name(name, term);
                    out.push(t);
                    count = count.saturating_add(c);
                    i += 1;
                }
                proof {
                    assert(terms_view(out@) =~= self@.subst(name@, term@)->Deferred_1);
                }
                (Self::new_macro(*m, out), count)
            },
            LambdaNode::Named(_) => (self.clone(), 0),
            LambdaNode::ChurchNum(_) => (self.clone(), 0),
        }
    }
}

impl LambdaTree {
    /// The canonical form of the term.
    pub fn to_canonical(&self) -> (r: DeBruijnNode)
        requires
            self@.macro_free(),
        ensures
            r@ == self@.canon(Seq::empty()),
    {
        DeBruijnNode::from_tree(self)
    }

    /// Whether the two terms are equal up to the names of their bound
    /// variables: whether their canonical forms are the same.
    pub fn alpha_eq(&self, other: &LambdaTree) -> (r: bool)
        requires
            self@.macro_free(),
            other@.macro_free(),
        ensures
            r == self@.alpha_eq(other@),
    {
        let a = DeBruijnNode::from_tree(self);
        let b = DeBruijnNode::from_tree(other);
        a.same(&b)
    }

    /// The term as it is written, in parentheses if it needs them where it
    /// stands.
    pub fn fmt_with_parenthesis(&self, left_of_appl: bool) -> (r: String)
        ensures
            r@ == self@.show_paren(left_of_appl),
        decreases self@.size(), 1nat,
    {
        if self.needs_parenthesis(left_of_appl) {
            proof {
                reveal_strlit("(");
                reveal_strlit(")");
            }
            let mut s = String::from_str("(");
            s.append(self.to_string().as_str());
            s.append(")");
            assert(s@ =~= seq!['('] + self@.show() + seq![')']);
            s
        } else {
            self.to_string()
        }
    }

    /// The term as it is written.
    #[verifier::loop_isolation(false)]
    pub fn to_string(&self) -> (r: String)
        ensures
            r@ == self@.show(),
        decreases self@.size(), 0nat,
    {
        proof {
            reveal_strlit("\\");
            reveal_strlit(" . ");
            reveal_strlit(" ");
            reveal_strlit("$");
            reveal_strlit("!");
            reveal_strlit("(");
            reveal_strlit(")");
        }
        match self.node() {
            LambdaNode::Abstraction(var_name, term) => {
                let mut s = String::from_str("\\");
                s.append(var_name.as_str());
                s.append(" . ");
                s.append(term.to_string().as_str());
                assert(s@ =~= self@.show());
                s
            },
            LambdaNode::Application(term1, term2) => {
                let mut s = term1.fmt_with_parenthesis(true);
                s.append(" ");
                s.append(term2.fmt_with_parenthesis(false).as_str());
                assert(s@ =~= self@.show());
                s
            },
            LambdaNode::Variable(name) => name.clone(),
            LambdaNode::Macro(m, terms) => {
                let ghost args = self@->Deferred_1;
                let mut s = String::from_str("!");
                s.append(m.name());
                s.append(" ");
                let ghost head = s@;
                assert(head =~= seq!['!'] + m.spec_name() + seq![' ']);
                let mut i: usize = 0;
                while i < terms.len()
                    invariant
                        i <= terms.len(),
                        s@ == head + Term::show_args(args, i as nat),
                    decreases terms.len() - i,
                {
                    assert(args[i as int] == terms[i as int]@);
                    proof {
                        self@.lemma_arg_size(i as int);
                    }
                    let ghost before = s@;
                    match terms[i].node() {
                        LambdaNode::Variable(name) => {
                            s.append(name.as_str());
                        },
                        _ => {
                            s.append("(");
                            s.append(terms[i].to_string().as_str());
                            s.append(")");
                        },
                    }
                    assert(s@ =~= before + args[i as int].show_arg());
                    i += 1;
                    assert(s@ =~= head + Term::show_args(args, i as nat));
                }
                s
            },
            LambdaNode::Named(named) => named.name.clone(),
            LambdaNode::ChurchNum(d) => {
                let mut s = String::from_str("$");
                s.append(decimal_string(*d as usize).as_str());
                assert(s@ =~= self@.show());
                s
            },
        }
    }
}

/// The names and terms that a registry of stored terms holds, in order.
pub open spec fn registry_view(v: Seq<Rc<NamedTerm>>) -> Seq<(Name, Term)> {
    Seq::new(v.len(), |i: int| (*v[i])@)
}

/// Whether `name` is among `bound`.
fn contains_name(bound: &Vec<String>, name: &String) -> (r: bool)
    ensures
        r == names_of(bound@).contains(name@),
{
    let mut i: usize = 0;
    while i < bound.len()
        invariant
            i <= bound.len(),
            forall|j: int| 0 <= j < i ==> names_of(bound@)[j] != name@,
        decreases bound.len() - i,
    {
        if bound[i] == *name {
            assert(names_of(bound@)[i as int] == name@);
            return true;
        }
        i += 1;
    }
    false
}

/// The stored term of the first entry of `named_terms` under `name`.
pub fn find_named(named_terms: &Vec<Rc<NamedTerm>>, name: &String) -> (r: Option<Rc<NamedTerm>>)
    ensures
        match r {
            Some(named) => (*named)@.0 == name@ && registry_find(
                registry_view(named_terms@),
                name@,
            ) == Some((*named)@.1),
            None => registry_find(registry_view(named_terms@), name@) is None,
        },
{
    let ghost all = registry_view(named_terms@);
    let mut i: usize = 0;
    assert(all.subrange(0, all.len() as int) =~= all);
    while i < named_terms.len()
        invariant
            i <= named_terms.len(),
            all == registry_view(named_terms@),
            registry_find(all, name@) == registry_find(all.subrange(i as int, all.len() as int), name@),
        decreases named_terms.len() - i,
    {
        let ghost part = all.subrange(i as int, all.len() as int);
        assert(part.drop_first() =~= all.subrange(i + 1, all.len() as int));
        assert(part.first() == all[i as int]);
        if named_terms[i].name == *name {
            return Some(share(&named_terms[i]));
        }
        i += 1;
    }
    None
}

impl LambdaTree {
    /// The term with a link to the stored term in place of every free
    /// variable that `named_terms` has a term for.
    pub fn set_named_terms(&self, named_terms: &Vec<Rc<NamedTerm>>) -> (r: Self)
        ensures
            r@ == self@.link(registry_view(named_terms@), Seq::empty()),
    {
        let mut bound_vars: Vec<String> = Vec::new();
        assert(names_of(bound_vars@) =~= Seq::empty());
        self.set_named_terms_helper(named_terms, &mut bound_vars)
    }

    #[verifier::loop_isolation(false)]
    fn set_named_terms_helper(&self, named_terms: &Vec<Rc<NamedTerm>>, bound_vars: &mut Vec<String>) -> (r: Self)
        ensures
            r@ == self@.link(registry_view(named_terms@), names_of(old(bound_vars)@)),
            final(bound_vars)@ == old(bound_vars)@,
        decreases self@.size(),
    {
        let ghost reg = registry_view(named_terms@);
        let ghost bound = names_of(bound_vars@);
        match self.node() {
            LambdaNode::Abstraction(var, term) => {
                let ghost before = bound_vars@;
                bound_vars.push(var.clone());
                assert(names_of(bound_vars@) =~= bound.push(var@));
                let new_term = term.set_named_terms_helper(named_terms, bound_vars);
                bound_vars.pop();
                assert(bound_vars@ =~= before);
                Self::new_abstraction(var.clone(), new_term)
            },
            LambdaNode::Application(left_term, right_term) => {
                let new_left_term = left_term.set_named_terms_helper(named_terms, bound_vars);
                let new_right_term = right_term.set_named_terms_helper(named_terms, bound_vars);
                Self::new_application(new_left_term, new_right_term)
            },
            LambdaNode::Variable(name) => {
                if contains_name(bound_vars, name) {
                    self.clone()
                } else {
                    match find_named(named_terms, name) {
                        Some(named) => Self::new_named(named),
                        None => self.clone(),
                    }
                }
            },
            LambdaNode::Macro(m, terms) => {
                let ghost args = self@->Deferred_1;
                let mut out: Vec<LambdaTree> = Vec::new();
                let mut i: usize = 0;
                while i < terms.len()
                    invariant
                        i <= terms.len(),
                        out.len() == i,
                        bound_vars@ == old(bound_vars)@,
                        forall|j: int| 0 <= j < i ==> (#[trigger] out[j])@ == args[j].link(reg, bound),
                    decreases terms.len() - i,
                {
                    assert(args[i as int] == terms[i as int]@);
                    proof {
                        self@.lemma_arg_size(i as int);
                    }
                    let t = terms[i].set_named_terms_helper(named_terms, bound_vars);
                    out.push(t);
                    i += 1;
                }
                proof {
                    assert(terms_view(out@) =~= self@.link(reg, bound)->Deferred_1);
                }
                Self::new_macro(*m, out)
            },
            LambdaNode::Named(_) => self.clone(),
            LambdaNode::ChurchNum(_) => self.clone(),
        }
    }

    /// Whether no macro invocation is left in the term.
    #[verifier::loop_isolation(false)]
    pub fn is_macro_free(&self) -> (r: bool)
        ensures
            r == self@.macro_free(),
        decreases self@.size(),
    {
        match self.node() {
            LambdaNode::Abstraction(_, term) => term.is_macro_free(),
            LambdaNode::Application(left_term, right_term) => {
                left_term.is_macro_free() && right_term.is_macro_free()
            },
            LambdaNode::Variable(_) => true,
            LambdaNode::Macro(_, _) => false,
            LambdaNode::Named(named) => named.term.is_macro_free(),
            LambdaNode::ChurchNum(_) => true,
        }
    }
}

/// No name stands twice in `v`.
pub open spec fn distinct_names(v: Seq<String>) -> bool {
    forall|i: int, j: int| 0 <= i < j < v.len() ==> v[i]@ != v[j]@
}

/// The names of a sequence with one string more are those of the sequence
/// and that of the string.
pub proof fn lemma_names_push(v: Seq<String>, s: String, n: Name)
    ensures
        names_of(v.push(s)).contains(n) <==> names_of(v).contains(n) || s@ == n,
{
    let more = names_of(v.push(s));
    if names_of(v).contains(n) {
        let i = choose|i: int| 0 <= i < names_of(v).len() && names_of(v)[i] == n;
        assert(more[i] == n);
    }
    if s@ == n {
        assert(more[v.len() as int] == n);
    }
    if more.contains(n) {
        let i = choose|i: int| 0 <= i < more.len() && more[i] == n;
        if i < v.len() {
            assert(names_of(v)[i] == n);
        }
    }
}

/// Adds `name` to `found` unless it is there.
fn add_name(found: &mut Vec<String>, name: &String)
    requires
        distinct_names(old(found)@),
    ensures
        distinct_names(final(found)@),
        forall|n: Name|
            #[trigger] names_of(final(found)@).contains(n) <==> names_of(old(found)@).contains(n) || n
                == name@,
{
    if !contains_name(found, name) {
        let ghost before = found@;
        let copy = name.clone();
        found.push(copy);
        assert forall|n: Name|
            names_of(found@).contains(n) <==> names_of(before).contains(n) || n == name@ by {
            lemma_names_push(before, copy, n);
        }
        assert forall|i: int, j: int| 0 <= i < j < found@.len() implies found@[i]@ != found@[j]@ by {
            if j == before.len() {
                assert(names_of(before)[i] == found@[i]@);
            }
        }
    }
}

impl LambdaTree {
    /// The names that occur free in the term, each once.
    pub fn free_variables(&self) -> (r: Vec<String>)
        ensures
            distinct_names(r@),
            forall|n: Name| #[trigger] names_of(r@).contains(n) <==> self@.free_vars().contains(n),
    {
        let mut bound: Vec<String> = Vec::new();
        let mut found: Vec<String> = Vec::new();
        self.collect_free(&mut bound, &mut found);
        assert forall|n: Name| names_of(found@).contains(n) <==> self@.has_free(n) by {
            assert(names_of(Seq::<String>::empty()) =~= Seq::<Name>::empty());
        }
        found
    }

    #[verifier::loop_isolation(false)]
    fn collect_free(&self, bound: &mut Vec<String>, found: &mut Vec<String>)
        requires
            distinct_names(old(found)@),
        ensures
            final(bound)@ == old(bound)@,
            distinct_names(final(found)@),
            forall|n: Name|
                #[trigger] names_of(final(found)@).contains(n) <==> names_of(old(found)@).contains(n) || (
                self@.has_free(n) && !names_of(old(bound)@).contains(n)),
        decreases self@.size(),
    {
        match self.node() {
            LambdaNode::Abstraction(var, term) => {
                let ghost before = bound@;
                let copy = var.clone();
                bound.push(copy);
                term.collect_free(bound, found);
                let ghost inner = bound@;
                bound.pop();
                assert(bound@ =~= before);
                assert(inner =~= before.push(copy));
                assert forall|n: Name| #[trigger]
                    names_of(found@).contains(n) <==> names_of(old(found)@).contains(n) || (
                    self@.has_free(n) && !names_of(before).contains(n)) by {
                    lemma_names_push(before, copy, n);
                    assert(names_of(found@).contains(n) <==> names_of(old(found)@).contains(n) || (
                    term@.has_free(n) && !names_of(inner).contains(n)));
                }
            },
            LambdaNode::Application(left_term, right_term) => {
                left_term.collect_free(bound, found);
                let ghost mid = found@;
                right_term.collect_free(bound, found);
                assert forall|n: Name| #[trigger]
                    names_of(found@).contains(n) <==> names_of(old(found)@).contains(n) || (
                    self@.has_free(n) && !names_of(old(bound)@).contains(n)) by {
                    assert(names_of(mid).contains(n) <==> names_of(old(found)@).contains(n) || (
                    left_term@.has_free(n) && !names_of(old(bound)@).contains(n)));
                }
            },
            LambdaNode::Variable(var) => {
                if !contains_name(bound, var) {
                    add_name(found, var);
                } else {
                    assert forall|n: Name| #[trigger]
                        names_of(found@).contains(n) <==> names_of(old(found)@).contains(n) || (
                        self@.has_free(n) && !names_of(old(bound)@).contains(n)) by {}
                }
            },
            LambdaNode::Macro(_, terms) => {
                let ghost args = self@->Deferred_1;
                let mut i: usize = 0;
                while i < terms.len()
                    invariant
                        i <= terms.len(),
                        bound@ == old(bound)@,
                        distinct_names(found@),
                        forall|n: Name|
                            names_of(found@).contains(n) <==> names_of(old(found)@).contains(n) || (
                            (exists|j: int| 0 <= j < i && (#[trigger] args[j]).has_free(n))
                                && !names_of(old(bound)@).contains(n)),
                    decreases terms.len() - i,
                {
                    assert(args[i as int] == terms[i as int]@);
                    proof {
                        self@.lemma_arg_size(i as int);
                    }
                    let ghost before = found@;
                    terms[i].collect_free(bound, found);
                    i += 1;
                    assert forall|n: Name|
                        names_of(found@).contains(n) <==> names_of(old(found)@).contains(n) || (
                        (exists|j: int| 0 <= j < i && (#[trigger] args[j]).has_free(n))
                            && !names_of(old(bound)@).contains(n)) by {
                        if args[i - 1].has_free(n) {
                            assert(exists|j: int| 0 <= j < i && (#[trigger] args[j]).has_free(n));
                        }
                        if exists|j: int| 0 <= j < i && (#[trigger] args[j]).has_free(n) {
                            let j = choose|j: int| 0 <= j < i && (#[trigger] args[j]).has_free(n);
                            if j < i - 1 {
                                assert(exists|j: int|
                                    0 <= j < i - 1 && (#[trigger] args[j]).has_free(n));
                            }
                        }
                    }
                }
            },
            LambdaNode::Named(named) => {
                named.term.collect_free(bound, found);
                assert forall|n: Name| #[trigger]
                    names_of(found@).contains(n) <==> names_of(old(found)@).contains(n) || (
                    self@.has_free(n) && !names_of(old(bound)@).contains(n)) by {}
            },
            LambdaNode::ChurchNum(_) => {},
        }
    }

    /// The names that abstractions in the term bind, each once.
    pub fn bound_variables(&self) -> (r: Vec<String>)
        ensures
            distinct_names(r@),
            forall|n: Name| #[trigger] names_of(r@).contains(n) <==> self@.bound_vars().contains(n),
    {
        let mut found: Vec<String> = Vec::new();
        self.collect_bound(&mut found);
        assert forall|n: Name| names_of(found@).contains(n) <==> self@.has_binder(n) by {
            assert(names_of(Seq::<String>::empty()) =~= Seq::<Name>::empty());
        }
        found
    }

    #[verifier::loop_isolation(false)]
    fn collect_bound(&self, found: &mut Vec<String>)
        requires
            distinct_names(old(found)@),
        ensures
            distinct_names(final(found)@),
            forall|n: Name|
                #[trigger] names_of(final(found)@).contains(n) <==> names_of(old(found)@).contains(n)
                    || self@.has_binder(n),
        decreases self@.size(),
    {
        match self.node() {
            LambdaNode::Abstraction(var, term) => {
                add_name(found, var);
                let ghost mid = found@;
                term.collect_bound(found);
                assert forall|n: Name| #[trigger]
                    names_of(found@).contains(n) <==> names_of(old(found)@).contains(n)
                        || self@.has_binder(n) by {
                    assert(names_of(mid).contains(n) <==> names_of(old(found)@).contains(n) || n
                        == var@);
                }
            },
            LambdaNode::Application(left_term, right_term) => {
                left_term.collect_bound(found);
                let ghost mid = found@;
                right_term.collect_bound(found);
                assert forall|n: Name| #[trigger]
                    names_of(found@).contains(n) <==> names_of(old(found)@).contains(n)
                        || self@.has_binder(n) by {
                    assert(names_of(mid).contains(n) <==> names_of(old(found)@).contains(n)
                        || left_term@.has_binder(n));
                }
            },
            LambdaNode::Variable(_) => {},
            LambdaNode::Macro(_, terms) => {
                let ghost args = self@->Deferred_1;
                let mut i: usize = 0;
                while i < terms.len()
                    invariant
                        i <= terms.len(),
                        distinct_names(found@),
                        forall|n: Name|
                            names_of(found@).contains(n) <==> names_of(old(found)@).contains(n)
                                || exists|j: int| 0 <= j < i && (#[trigger] args[j]).has_binder(n),
                    decreases terms.len() - i,
                {
                    assert(args[i as int] == terms[i as int]@);
                    proof {
                        self@.lemma_arg_size(i as int);
                    }
                    terms[i].collect_bound(found);
                    i += 1;
                    assert forall|n: Name|
                        names_of(found@).contains(n) <==> names_of(old(found)@).contains(n)
                            || exists|j: int| 0 <= j < i && (#[trigger] args[j]).has_binder(n) by {
                        if args[i - 1].has_binder(n) {
                            assert(exists|j: int| 0 <= j < i && (#[trigger] args[j]).has_binder(n));
                        }
                        if exists|j: int| 0 <= j < i && (#[trigger] args[j]).has_binder(n) {
                            let j = choose|j: int| 0 <= j < i && (#[trigger] args[j]).has_binder(n);
                            if j < i - 1 {
                                assert(exists|j: int|
                                    0 <= j < i - 1 && (#[trigger] args[j]).has_binder(n));
                            }
                        }
                    }
                }
            },
            LambdaNode::Named(named) => {
                named.term.collect_bound(found);
                assert forall|n: Name| #[trigger]
                    names_of(found@).contains(n) <==> names_of(old(found)@).contains(n)
                        || self@.has_binder(n) by {}
            },
            LambdaNode::ChurchNum(_) => {},
        }
    }
}

/// The registry with `term` stored under `name`, in place of what was stored
/// under that name before.
pub fn store_named(named_terms: &mut Vec<Rc<NamedTerm>>, name: String, term: LambdaTree)
    ensures
        registry_find(registry_view(final(named_terms)@), name@) == Some(term@),
        forall|other: Name|
            other != name@ ==> registry_find(registry_view(final(named_terms)@), other)
                == registry_find(registry_view(old(named_terms)@), other),
{
    store_shared(named_terms, Rc::new(NamedTerm::new(name, term)));
}

/// The registry with `named` in place of what was stored under its name
/// before.
pub fn store_shared(named_terms: &mut Vec<Rc<NamedTerm>>, named: Rc<NamedTerm>)
    ensures
        registry_find(registry_view(final(named_terms)@), (*named)@.0) == Some((*named)@.1),
        forall|other: Name|
            other != (*named)@.0 ==> registry_find(registry_view(final(named_terms)@), other)
                == registry_find(registry_view(old(named_terms)@), other),
{
    let ghost name = (*named)@.0;
    let ghost term = (*named)@.1;
    let ghost before = registry_view(named_terms@);
    let mut i: usize = 0;
    while i < named_terms.len()
        invariant
            i <= named_terms.len(),
            named_terms@ == old(named_terms)@,
            before == registry_view(named_terms@),
            name == (*named)@.0,
            term == (*named)@.1,
            forall|j: int| 0 <= j < i ==> before[j].0 != name,
        decreases named_terms.len() - i,
    {
        assert(before[i as int] == (*named_terms[i as int])@);
        if *named_terms[i].name() == *named.name() {
            let ghost at = i as int;
            named_terms.set(i, named);
            proof {
                let after = registry_view(named_terms@);
                assert(after =~= before.update(at, (name, term)));
                lemma_find_update(before, at, name, term);
            }
            return ;
        }
        i += 1;
    }
    named_terms.push(named);
    proof {
        let after = registry_view(named_terms@);
        assert(after =~= before.push((name, term)));
        lemma_find_push(before, name, term);
    }
}

/// Replacing the first entry of a name by another of that name changes what
/// is found under that name, and nothing else.
pub proof fn lemma_find_update(reg: Seq<(Name, Term)>, at: int, name: Name, term: Term)
    requires
        0 <= at < reg.len(),
        reg[at].0 == name,
        forall|j: int| 0 <= j < at ==> reg[j].0 != name,
    ensures
        registry_find(reg.update(at, (name, term)), name) == Some(term),
        forall|other: Name|
            other != name ==> registry_find(reg.update(at, (name, term)), other) == registry_find(
                reg,
                other,
            ),
    decreases reg.len(),
{
    let after = reg.update(at, (name, term));
    if at == 0 {
        assert(after.drop_first() =~= reg.drop_first());
    } else {
        assert(after.drop_first() =~= reg.drop_first().update(at - 1, (name, term)));
        lemma_find_update(reg.drop_first(), at - 1, name, term);
    }
    assert forall|other: Name| other != name implies registry_find(after, other) == registry_find(
        reg,
        other,
    ) by {
        assert(after.first().0 == reg.first().0);
        if at == 0 {
            assert(after.drop_first() == reg.drop_first());
        } else {
            assert(after.drop_first() == reg.drop_first().update(at - 1, (name, term)));
            assert(registry_find(after.drop_first(), other) == registry_find(
                reg.drop_first(),
                other,
            ));
        }
    }
}

/// A new entry at the end, under a name that no entry bears, is found under
/// that name, and changes nothing else.
pub proof fn lemma_find_push(reg: Seq<(Name, Term)>, name: Name, term: Term)
    requires
        forall|j: int| 0 <= j < reg.len() ==> reg[j].0 != name,
    ensures
        registry_find(reg.push((name, term)), name) == Some(term),
        forall|other: Name|
            other != name ==> registry_find(reg.push((name, term)), other) == registry_find(
                reg,
                other,
            ),
    decreases reg.len(),
{
    let after = reg.push((name, term));
    if reg.len() == 0 {
        assert(after.drop_first() =~= Seq::empty());
    } else {
        assert(after.drop_first() =~= reg.drop_first().push((name, term)));
        lemma_find_push(reg.drop_first(), name, term);
    }
    assert forall|other: Name| other != name implies registry_find(after, other) == registry_find(
        reg,
        other,
    ) by {
        if reg.len() > 0 {
            assert(after.first() == reg.first());
            assert(after.drop_first() == reg.drop_first().push((name, term)));
            assert(registry_find(after.drop_first(), other) == registry_find(
                reg.drop_first(),
                other,
            ));
        } else {
            assert(after.drop_first() == Seq::<(Name, Term)>::empty());
        }
    }
}

/// The terms that a vector of trees denotes, in order.
pub open spec fn terms_view(ts: Seq<LambdaTree>) -> Seq<Term> {
    Seq::new(ts.len(), |i: int| if 0 <= i < ts.len() { ts[i]@ } else { Term::Num(0) })
}

} // verus!
