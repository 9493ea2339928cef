use vstd::prelude::*;
use crate::lambda::{LambdaNode, LambdaTree};
use crate::term::{church, lemma_church_plain, lemma_church_weight, Term};
use vstd::string::StringExecFns;
use crate::text::{decimal, decimal_string, names_of, Name};

verus! {

/// The mathematical model of a canonical form: what a `DeBruijnNode` denotes.
pub enum Canon {
    /// A bound variable: the number of binders from the variable up to its
    /// own, that one counted.
    Bound(nat),
    /// A free variable, by its name.
    Free(Name),
    /// An abstraction; its binder has no name.
    Abs(Box<Canon>),
    /// Juxtaposition: function, then argument.
    App(Box<Canon>, Box<Canon>),
}

impl Canon {
    /// The form as it is written: a bound variable as its distance, a free one
    /// as its name, an abstraction as `\` and its body, an application as
    /// function and argument side by side.
    pub open spec fn show(self) -> Seq<char>
        decreases self,
    {
        match self {
            Canon::Free(name) => name,
            Canon::Bound(i) => decimal(i),
            Canon::Abs(t) => "\\ "@ + t.show(),
            Canon::App(f, a) => (if *f is Abs {
                "("@ + f.show() + ")"@
            } else {
                f.show()
            }) + " "@ + (if *a is Abs || *a is App {
                "("@ + a.show() + ")"@
            } else {
                a.show()
            }),
        }
    }
}

/// The distance from the innermost end of `env` to the last binder named `n`:
/// 1 if `n` was bound last. `None` if no binder in `env` is named `n`.
pub open spec fn lookup(env: Seq<Name>, n: Name) -> Option<nat>
    decreases env.len(),
{
    if env.len() == 0 {
        None
    } else if env.last() == n {
        Some(1)
    } else {
        match lookup(env.drop_last(), n) {
            Some(d) => Some(d + 1),
            None => None,
        }
    }
}

impl Term {
    /// The canonical form of the term below the binders `env`, outermost
    /// first: bound variables become distances, free variables keep their
    /// names, named links count as what they link to and numerals as the
    /// abstractions they stand for. A macro invocation has no canonical form.
    pub open spec fn canon(self, env: Seq<Name>) -> Canon
        decreases self.weight(),
        via Self::canon_decreases
    {
        match self {
            Term::Var(x) => match lookup(env, x) {
                Some(d) => Canon::Bound(d),
                None => Canon::Free(x),
            },
            Term::Abs(x, b) => Canon::Abs(Box::new(b.canon(env.push(x)))),
            Term::App(l, r) => Canon::App(Box::new(l.canon(env)), Box::new(r.canon(env))),
            Term::Named(_, t) => t.canon(env),
            Term::Num(n) => church(n).canon(env),
            Term::Deferred(_, _) => Canon::Free(Seq::empty()),
        }
    }

    #[via_fn]
    proof fn canon_decreases(self, env: Seq<Name>) {
        if let Term::Num(n) = self {
            lemma_church_weight(n);
        }
    }

    /// Two terms are equal up to the names of their bound variables.
    pub open spec fn alpha_eq(self, other: Term) -> bool {
        self.canon(Seq::empty()) == other.canon(Seq::empty())
    }
}

/// The canonical form of a term: bound variables as distances to their
/// binders, free variables as names.
#[derive(Debug)]
pub enum DeBruijnNode {
    BoundVariable(usize),
    FreeVariable(String),
    Abstraction(Box<DeBruijnNode>),
    Application(Box<DeBruijnNode>, Box<DeBruijnNode>),
}

impl DeBruijnNode {
    /// The canonical form that the node denotes, with what stands below it.
    pub open spec fn model(&self) -> Canon
        decreases self,
    {
        match self {
            DeBruijnNode::BoundVariable(i) => Canon::Bound(*i as nat),
            DeBruijnNode::FreeVariable(name) => Canon::Free(name@),
            DeBruijnNode::Abstraction(t) => Canon::Abs(Box::new(t.model())),
            DeBruijnNode::Application(l, r) => Canon::App(
                Box::new(l.model()),
                Box::new(r.model()),
            ),
        }
    }

    /// Whether the two forms are the same.
    pub fn same(&self, other: &DeBruijnNode) -> (r: bool)
        ensures
            r == (self@ == other@),
        decreases self,
    {
        match (self, other) {
            (DeBruijnNode::BoundVariable(i), DeBruijnNode::BoundVariable(j)) => *i == *j,
            (DeBruijnNode::FreeVariable(a), DeBruijnNode::FreeVariable(b)) => *a == *b,
            (DeBruijnNode::Abstraction(a), DeBruijnNode::Abstraction(b)) => a.same(b),
            (DeBruijnNode::Application(a1, a2), DeBruijnNode::Application(b1, b2)) => {
                a1.same(b1) && a2.same(b2)
            },
            _ => false,
        }
    }

    /// The form as it is written.
    pub fn to_string(&self) -> (r: String)
        ensures
            r@ == self@.show(),
        decreases self,
    {
        match self {
            DeBruijnNode::FreeVariable(name) => name.clone(),
            DeBruijnNode::BoundVariable(i) => decimal_string(*i),
            DeBruijnNode::Abstraction(term) => {
                let mut s = String::from_str("\\ ");
                s.append(term.to_string().as_str());
                s
            },
            DeBruijnNode::Application(term1, term2) => {
                let mut s = match &**term1 {
                    DeBruijnNode::Abstraction(_) => {
                        let mut p = String::from_str("(");
                        p.append(term1.to_string().as_str());
                        p.append(")");
                        p
                    },
                    _ => term1.to_string(),
                };
                s.append(" ");
                let ghost head = s@;
                match &**term2 {
                    DeBruijnNode::FreeVariable(_) => {
                        s.append(term2.to_string().as_str());
                    },
                    DeBruijnNode::BoundVariable(_) => {
                        s.append(term2.to_string().as_str());
                    },
                    _ => {
                        s.append("(");
                        s.append(term2.to_string().as_str());
                        s.append(")");
                        assert(s@ =~= head + ("("@ + term2@.show() + ")"@));
                    },
                }
                s
            },
        }
    }

    /// The canonical form of `value`.
    pub fn from_tree(value: &LambdaTree) -> (r: DeBruijnNode)
        requires
            value@.macro_free(),
        ensures
            r@ == value@.canon(Seq::empty()),
    {
        let mut env: Vec<String> = Vec::new();
        assert(names_of(env@) =~= Seq::empty());
        to_debrujin_helper(value, &mut env)
    }
}

impl View for DeBruijnNode {
    type V = Canon;

    open spec fn view(&self) -> Canon {
        self.model()
    }
}

/// The distance from the end of `env` to the last binder named `name`, if
/// there is one.
fn find_binder(env: &Vec<String>, name: &String) -> (r: Option<usize>)
    ensures
        match r {
            Some(d) => lookup(names_of(env@), name@) == Some(d as nat),
            None => lookup(names_of(env@), name@) is None,
        },
{
    let mut i: usize = env.len();
    let ghost all = names_of(env@);
    assert(all.subrange(0, i as int) =~= all);
    while i > 0
        invariant
            i <= env.len(),
            all == names_of(env@),
            match lookup(all.subrange(0, i as int), name@) {
                Some(d) => lookup(all, name@) == Some((d + env.len() - i) as nat),
                None => lookup(all, name@) is None,
            },
            forall|d: nat| lookup(all, name@) == Some(d) ==> d > env.len() - i,
        decreases i,
    {
        let ghost part = all.subrange(0, i as int);
        assert(part.drop_last() =~= all.subrange(0, i - 1));
        assert(part.last() == env[i - 1]@);
        if env[i - 1] == *name {
            return Some(env.len() - i + 1);
        }
        i -= 1;
    }
    None
}

/// The canonical form of `l` below the binders `env`, outermost first. `env`
/// is left as it was found.
pub fn to_debrujin_helper(l: &LambdaTree, env: &mut Vec<String>) -> (r: DeBruijnNode)
    requires
        l@.macro_free(),
    ensures
        r@ == l@.canon(names_of(old(env)@)),
        final(env)@ == old(env)@,
    decreases l@.weight(),
{
    match l.node() {
        LambdaNode::Variable(name) => {
            match find_binder(env, name) {
                Some(d) => DeBruijnNode::BoundVariable(d),
                None => DeBruijnNode::FreeVariable(name.clone()),
            }
        },
        LambdaNode::Abstraction(var_name, inner) => {
            let ghost before = env@;
            env.push(var_name.clone());
            assert(names_of(env@) =~= names_of(before).push(var_name@));
            let body = to_debrujin_helper(inner, env);
            env.pop();
            assert(env@ =~= before);
            DeBruijnNode::Abstraction(Box::new(body))
        },
        LambdaNode::Application(left, right) => {
            let l1 = to_debrujin_helper(left, env);
            let r1 = to_debrujin_helper(right, env);
            DeBruijnNode::Application(Box::new(l1), Box::new(r1))
        },
        LambdaNode::Named(named_term) => {
            let term = named_term.term();
            to_debrujin_helper(&term, env)
        },
        LambdaNode::ChurchNum(n) => {
            proof {
                lemma_church_weight(*n as nat);
                lemma_church_plain(*n as nat);
            }
            let expanded = LambdaTree::unwrap_church_num(*n);
            to_debrujin_helper(&expanded, env)
        },
        LambdaNode::Macro(_, _) => {
            proof {
                assert(false);
            }
            DeBruijnNode::BoundVariable(0)
        },
    }
}

} // verus!
