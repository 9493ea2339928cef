use vstd::prelude::*;
use crate::debruijn::{lookup, Canon};
use crate::term::{
    church,
    church_body,
    lemma_church_plain,
    lemma_church_weight,
    name_f,
    name_x,
    Term,
};
use crate::text::Name;

verus! {

impl Canon {
    /// The form with `r` in place of every free variable named `x`.
    pub open spec fn subst(self, x: Name, r: Canon) -> Canon
        decreases self,
    {
        match self {
            Canon::Bound(_) => self,
            Canon::Free(z) => if z == x {
                r
            } else {
                self
            },
            Canon::Abs(b) => Canon::Abs(Box::new(b.subst(x, r))),
            Canon::App(f, a) => Canon::App(Box::new(f.subst(x, r)), Box::new(a.subst(x, r))),
        }
    }
}

/// One binder further out: the distance grows by one.
pub open spec fn shift(d: Option<nat>) -> Option<nat> {
    match d {
        Some(n) => Some(n + 1),
        None => None,
    }
}

/// Below one binder more, the new binder is nearest, and every other name is
/// one binder further away.
pub proof fn lemma_lookup_push(env: Seq<Name>, w: Name, z: Name)
    ensures
        lookup(env.push(w), z) == if w == z {
            Some(1nat)
        } else {
            shift(lookup(env, z))
        },
{
    assert(env.push(w).drop_last() =~= env);
    assert(env.push(w).last() == w);
}

/// An expanded numeral has no free variable.
pub proof fn lemma_church_closed(n: nat, z: Name)
    ensures
        !church_body(n).has_free(z) || z == name_f() || z == name_x(),
        !church(n).has_free(z),
    decreases n,
{
    reveal_with_fuel(Term::has_free, 4);
    if n > 0 {
        lemma_church_closed((n - 1) as nat, z);
    }
}

/// The canonical form of a term depends on the binders around it only through
/// the term's free variables.
pub proof fn lemma_canon_env(t: Term, e1: Seq<Name>, e2: Seq<Name>)
    requires
        forall|z: Name| t.has_free(z) ==> lookup(e1, z) == lookup(e2, z),
    ensures
        t.canon(e1) == t.canon(e2),
    decreases t.weight(),
{
    match t {
        Term::Var(_) => {},
        Term::Abs(w, b) => {
            assert forall|z: Name| b.has_free(z) implies lookup(e1.push(w), z) == lookup(
                e2.push(w),
                z,
            ) by {
                lemma_lookup_push(e1, w, z);
                lemma_lookup_push(e2, w, z);
            }
            lemma_canon_env(*b, e1.push(w), e2.push(w));
        },
        Term::App(l, r) => {
            lemma_canon_env(*l, e1, e2);
            lemma_canon_env(*r, e1, e2);
        },
        Term::Named(_, u) => {
            lemma_canon_env(*u, e1, e2);
        },
        Term::Num(n) => {
            lemma_church_weight(n);
            assert forall|z: Name| church(n).has_free(z) implies lookup(e1, z) == lookup(e2, z) by {
                lemma_church_closed(n, z);
            }
            lemma_canon_env(church(n), e1, e2);
        },
        Term::Deferred(_, _) => {},
    }
}

/// Where no binder named `y` stands in a term, putting the variable `y` for
/// `x` is a plain renaming: no binder has to give way.
pub proof fn lemma_subst_var_is_rename(t: Term, x: Name, y: Name)
    requires
        !t.has_binder(y),
    ensures
        t.subst(x, Term::Var(y)) == t.replace_free(x, y),
    decreases t.size(),
{
    match t {
        Term::Var(_) => {},
        Term::Abs(w, b) => {
            if w != x {
                lemma_subst_var_is_rename(*b, x, y);
            }
        },
        Term::App(l, r) => {
            lemma_subst_var_is_rename(*l, x, y);
            lemma_subst_var_is_rename(*r, x, y);
        },
        Term::Named(_, _) => {},
        Term::Num(_) => {},
        Term::Deferred(m, args) => {
            assert forall|i: int| 0 <= i < args.len() implies (#[trigger] args[i]).subst(
                x,
                Term::Var(y),
            ) == args[i].replace_free(x, y) by {
                t.lemma_arg_size(i);
                lemma_subst_var_is_rename(args[i], x, y);
            }
            assert(t.subst(x, Term::Var(y))->Deferred_1 =~= t.replace_free(x, y)->Deferred_1);
        },
    }
}

/// The environments `e1` and `e2` agree but for the binder `x` of the first,
/// which the second names `y`.
pub open spec fn renamed_env(e1: Seq<Name>, x: Name, e2: Seq<Name>, y: Name) -> bool {
    &&& lookup(e1, x) is Some
    &&& lookup(e2, y) == lookup(e1, x)
    &&& forall|z: Name| z != x && z != y ==> lookup(e1, z) == lookup(e2, z)
}

/// Renaming the free occurrences of `x` to a name that the term does not
/// hold, below binders renamed alike, keeps the canonical form.
pub proof fn lemma_rename_canon(t: Term, x: Name, y: Name, e1: Seq<Name>, e2: Seq<Name>)
    requires
        x != y,
        !t.mentions(y),
        t.named_closed(),
        renamed_env(e1, x, e2, y),
    ensures
        t.replace_free(x, y).canon(e2) == t.canon(e1),
    decreases t,
{
    match t {
        Term::Var(_) => {},
        Term::Abs(w, b) => {
            if w == x {
                assert forall|z: Name| b.has_free(z) implies lookup(e2.push(w), z) == lookup(
                    e1.push(w),
                    z,
                ) by {
                    lemma_lookup_push(e1, w, z);
                    lemma_lookup_push(e2, w, z);
                }
                lemma_canon_env(*b, e2.push(w), e1.push(w));
            } else {
                assert(renamed_env(e1.push(w), x, e2.push(w), y)) by {
                    lemma_lookup_push(e1, w, x);
                    lemma_lookup_push(e2, w, y);
                    assert forall|z: Name| z != x && z != y implies lookup(e1.push(w), z)
                        == lookup(e2.push(w), z) by {
                        lemma_lookup_push(e1, w, z);
                        lemma_lookup_push(e2, w, z);
                    }
                }
                lemma_rename_canon(*b, x, y, e1.push(w), e2.push(w));
            }
        },
        Term::App(l, r) => {
            lemma_rename_canon(*l, x, y, e1, e2);
            lemma_rename_canon(*r, x, y, e1, e2);
        },
        Term::Named(_, u) => {
            lemma_canon_env(*u, e2, e1);
        },
        Term::Num(n) => {
            lemma_canon_env(t, e2, e1);
        },
        Term::Deferred(_, _) => {},
    }
}

/// Alpha-invariance. Renaming the bound variable of an abstraction to a name
/// that occurs nowhere in it leaves a term with the same canonical form,
/// whatever binders stand around it; so the two are equal up to the names of
/// bound variables, and stay so inside any larger term. It holds where every
/// stored term that the body links to is closed: a link is never renamed
/// into.
pub proof fn lemma_alpha_invariance(x: Name, body: Term, y: Name, env: Seq<Name>)
    requires
        y != x,
        !body.mentions(y),
        body.named_closed(),
    ensures
        Term::Abs(y, Box::new(body.subst(x, Term::Var(y)))).canon(env) == Term::Abs(
            x,
            Box::new(body),
        ).canon(env),
        env.len() == 0 ==> Term::Abs(y, Box::new(body.subst(x, Term::Var(y)))).alpha_eq(
            Term::Abs(x, Box::new(body)),
        ),
{
    lemma_subst_var_is_rename(body, x, y);
    assert(renamed_env(env.push(x), x, env.push(y), y)) by {
        lemma_lookup_push(env, x, x);
        lemma_lookup_push(env, y, y);
        assert forall|z: Name| z != x && z != y implies lookup(env.push(x), z) == lookup(
            env.push(y),
            z,
        ) by {
            lemma_lookup_push(env, x, z);
            lemma_lookup_push(env, y, z);
        }
    }
    lemma_rename_canon(body, x, y, env.push(x), env.push(y));
    if env.len() == 0 {
        assert(env =~= Seq::empty());
    }
}

/// Equality up to the names of bound variables carries over to larger terms:
/// terms with the same canonical form below all binders give abstractions
/// and applications with the same canonical form below all binders.
pub proof fn lemma_alpha_congruence(a: Term, b: Term, x: Name, other: Term, env: Seq<Name>)
    requires
        forall|e: Seq<Name>| a.canon(e) == b.canon(e),
    ensures
        Term::Abs(x, Box::new(a)).canon(env) == Term::Abs(x, Box::new(b)).canon(env),
        Term::App(Box::new(a), Box::new(other)).canon(env) == Term::App(
            Box::new(b),
            Box::new(other),
        ).canon(env),
        Term::App(Box::new(other), Box::new(a)).canon(env) == Term::App(
            Box::new(other),
            Box::new(b),
        ).canon(env),
        Term::Named(x, Box::new(a)).canon(env) == Term::Named(x, Box::new(b)).canon(env),
{
    assert(a.canon(env.push(x)) == b.canon(env.push(x)));
    assert(a.canon(env) == b.canon(env));
}

/// Where `x` is not free in a term, or is bound around it, the term's
/// canonical form holds no free `x` to replace.
pub proof fn lemma_canon_no_free(t: Term, env: Seq<Name>, x: Name, r: Canon)
    requires
        !t.has_free(x) || lookup(env, x) is Some,
        t.macro_free(),
    ensures
        t.canon(env).subst(x, r) == t.canon(env),
    decreases t.weight(),
{
    match t {
        Term::Var(_) => {},
        Term::Abs(w, b) => {
            lemma_lookup_push(env, w, x);
            lemma_canon_no_free(*b, env.push(w), x, r);
        },
        Term::App(l, a) => {
            lemma_canon_no_free(*l, env, x, r);
            lemma_canon_no_free(*a, env, x, r);
        },
        Term::Named(_, u) => {
            lemma_canon_no_free(*u, env, x, r);
        },
        Term::Num(n) => {
            lemma_church_weight(n);
            lemma_church_closed(n, x);
            lemma_church_plain(n);
            lemma_canon_no_free(church(n), env, x, r);
        },
        Term::Deferred(_, _) => {},
    }
}

/// Renaming keeps a term free of macro invocations and its links closed.
pub proof fn lemma_replace_free_plain(t: Term, y: Name, z: Name)
    ensures
        t.macro_free() ==> t.replace_free(y, z).macro_free(),
        t.named_closed() ==> t.replace_free(y, z).named_closed(),
    decreases t,
{
    match t {
        Term::Var(_) => {},
        Term::Abs(w, b) => {
            lemma_replace_free_plain(*b, y, z);
        },
        Term::App(l, r) => {
            lemma_replace_free_plain(*l, y, z);
            lemma_replace_free_plain(*r, y, z);
        },
        Term::Named(_, _) => {},
        Term::Num(_) => {},
        Term::Deferred(m, args) => {
            if t.named_closed() {
                let out = t.replace_free(y, z)->Deferred_1;
                assert forall|i: int| 0 <= i < out.len() implies (#[trigger] out[i]).named_closed() by {
                    lemma_replace_free_plain(args[i], y, z);
                }
            }
        },
    }
}

/// Substitution commutes with canonical forms, below binders that neither
/// name `x` nor a free variable of `r`.
pub proof fn lemma_subst_canon(t: Term, x: Name, r: Term, env: Seq<Name>)
    requires
        t.macro_free(),
        t.named_closed(),
        lookup(env, x) is None,
        forall|z: Name| r.has_free(z) ==> lookup(env, z) is None,
    ensures
        t.subst(x, r).canon(env) == t.canon(env).subst(x, r.canon(Seq::empty())),
    decreases t.size(),
{
    let cr = r.canon(Seq::empty());
    match t {
        Term::Var(z) => {
            if z == x {
                lemma_canon_env(r, env, Seq::empty());
            }
        },
        Term::Abs(w, c) => {
            if w == x {
                lemma_canon_no_free(t, env, x, cr);
            } else if r.has_free(w) {
                let z = Term::fresh(w, *c, x, r);
                Term::lemma_fresh_not_rotten(w, *c, x, r);
                let c2 = c.replace_free(w, z);
                c.lemma_replace_free_size(w, z);
                lemma_replace_free_plain(*c, w, z);
                lemma_lookup_push(env, z, x);
                assert forall|v: Name| r.has_free(v) implies lookup(env.push(z), v) is None by {
                    lemma_lookup_push(env, z, v);
                }
                lemma_subst_canon(c2, x, r, env.push(z));
                assert(renamed_env(env.push(w), w, env.push(z), z)) by {
                    lemma_lookup_push(env, w, w);
                    lemma_lookup_push(env, z, z);
                    assert forall|v: Name| v != w && v != z implies lookup(env.push(w), v)
                        == lookup(env.push(z), v) by {
                        lemma_lookup_push(env, w, v);
                        lemma_lookup_push(env, z, v);
                    }
                }
                lemma_rename_canon(*c, w, z, env.push(w), env.push(z));
            } else {
                lemma_lookup_push(env, w, x);
                assert forall|v: Name| r.has_free(v) implies lookup(env.push(w), v) is None by {
                    lemma_lookup_push(env, w, v);
                }
                lemma_subst_canon(*c, x, r, env.push(w));
            }
        },
        Term::App(l, a) => {
            lemma_subst_canon(*l, x, r, env);
            lemma_subst_canon(*a, x, r, env);
        },
        Term::Named(_, u) => {
            assert(!u.has_free(x));
            lemma_canon_no_free(t, env, x, cr);
        },
        Term::Num(_) => {
            lemma_canon_no_free(t, env, x, cr);
        },
        Term::Deferred(_, _) => {},
    }
}

/// Substitution without capture. The canonical form of `t` with `r` put for
/// `x` is the canonical form of `t` with the canonical form of `r` in place
/// of every free `x`: what was free in `r` is free where `r` now stands, and
/// no binder of `t` has caught it. It is stated of terms that a canonical
/// form exists for, and holds where every stored term that `t` links to is
/// closed: a link is never substituted into.
pub proof fn lemma_substitution_avoids_capture(t: Term, x: Name, r: Term)
    requires
        t.macro_free(),
        t.named_closed(),
    ensures
        t.subst(x, r).canon(Seq::empty()) == t.canon(Seq::empty()).subst(
            x,
            r.canon(Seq::empty()),
        ),
{
    lemma_subst_canon(t, x, r, Seq::empty());
}

} // verus!
