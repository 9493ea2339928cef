use vstd::prelude::*;
use crate::alpha::{
    lemma_church_closed,
    lemma_lookup_push,
    lemma_rename_canon,
    lemma_replace_free_plain,
    renamed_env,
    shift,
};
use crate::confluence::{is_path, lemma_unique_normal_form};
use crate::debruijn::{lookup, Canon};
use crate::strategy::{contraction, head_abs, Side, Strategy};
use crate::term::{church, church_body, lemma_church_plain, lemma_church_weight, name_f, name_x, Term};
use crate::text::Name;

verus! {

/// `n` binders further out: the distance grows by `n`.
pub open spec fn shift_by(d: Option<nat>, n: nat) -> Option<nat> {
    match d {
        Some(m) => Some(m + n),
        None => None,
    }
}

/// A name is looked up in the inner binders first, then in the outer ones.
pub proof fn lemma_lookup_concat(outer: Seq<Name>, inner: Seq<Name>, z: Name)
    ensures
        lookup(outer + inner, z) == match lookup(inner, z) {
            Some(d) => Some(d),
            None => shift_by(lookup(outer, z), inner.len()),
        },
    decreases inner.len(),
{
    if inner.len() == 0 {
        assert(outer + inner =~= outer);
    } else {
        assert((outer + inner).drop_last() =~= outer + inner.drop_last());
        assert((outer + inner).last() == inner.last());
        lemma_lookup_concat(outer, inner.drop_last(), z);
    }
}

/// How a name is looked up where one binder `y` stands between the outer and
/// the inner binders.
pub proof fn lemma_lookup_between(outer: Seq<Name>, y: Name, inner: Seq<Name>, z: Name)
    ensures
        lookup(outer + seq![y] + inner, z) == match lookup(inner, z) {
            Some(d) => Some(d),
            None => if z == y {
                Some(inner.len() + 1)
            } else {
                shift_by(lookup(outer, z), inner.len() + 1)
            },
        },
{
    lemma_lookup_concat(outer + seq![y], inner, z);
    assert(outer + seq![y] =~= outer.push(y));
    lemma_lookup_push(outer, y, z);
}

/// A binder that no variable of a term refers to can be taken away: the
/// canonical form then reads as if the variable of that binder had been
/// instantiated, with whatever.
pub proof fn lemma_unused_binder(c: Term, outer: Seq<Name>, y: Name, inner: Seq<Name>, a: Canon)
    requires
        c.macro_free(),
        lookup(inner, y) is Some || !c.has_free(y),
    ensures
        c.canon(outer + seq![y] + inner).inst(inner.len() + 1, a) == c.canon(outer + inner),
    decreases c.weight(),
{
    match c {
        Term::Var(z) => {
            lemma_lookup_between(outer, y, inner, z);
            lemma_lookup_concat(outer, inner, z);
            lemma_lookup_bound(inner, z);
        },
        Term::Abs(w, b) => {
            assert((outer + seq![y] + inner).push(w) =~= outer + seq![y] + inner.push(w));
            assert((outer + inner).push(w) =~= outer + inner.push(w));
            lemma_lookup_push(inner, w, y);
            lemma_unused_binder(*b, outer, y, inner.push(w), a.lift(0));
        },
        Term::App(l, r) => {
            lemma_unused_binder(*l, outer, y, inner, a);
            lemma_unused_binder(*r, outer, y, inner, a);
        },
        Term::Named(_, u) => {
            lemma_unused_binder(*u, outer, y, inner, a);
        },
        Term::Num(n) => {
            lemma_church_weight(n);
            lemma_church_closed(n, y);
            lemma_church_plain(n);
            lemma_unused_binder(church(n), outer, y, inner, a);
        },
        Term::Deferred(_, _) => {},
    }
}

/// Below one binder more that no variable of a term refers to, the canonical
/// form of the term is lifted.
pub proof fn lemma_weaken(r: Term, outer: Seq<Name>, w: Name, inner: Seq<Name>)
    requires
        r.macro_free(),
        lookup(inner, w) is Some || !r.has_free(w),
    ensures
        r.canon(outer + seq![w] + inner) == r.canon(outer + inner).lift(inner.len()),
    decreases r.weight(),
{
    match r {
        Term::Var(z) => {
            lemma_lookup_between(outer, w, inner, z);
            lemma_lookup_concat(outer, inner, z);
            lemma_lookup_bound(inner, z);
        },
        Term::Abs(v, b) => {
            assert((outer + seq![w] + inner).push(v) =~= outer + seq![w] + inner.push(v));
            assert((outer + inner).push(v) =~= outer + inner.push(v));
            lemma_lookup_push(inner, v, w);
            lemma_weaken(*b, outer, w, inner.push(v));
        },
        Term::App(l, a) => {
            lemma_weaken(*l, outer, w, inner);
            lemma_weaken(*a, outer, w, inner);
        },
        Term::Named(_, u) => {
            lemma_weaken(*u, outer, w, inner);
        },
        Term::Num(n) => {
            lemma_church_weight(n);
            lemma_church_closed(n, w);
            lemma_church_plain(n);
            lemma_weaken(church(n), outer, w, inner);
        },
        Term::Deferred(_, _) => {},
    }
}

/// A distance that is found is at least one and at most the number of
/// binders.
pub proof fn lemma_lookup_bound(env: Seq<Name>, z: Name)
    ensures
        lookup(env, z) matches Some(d) ==> 1 <= d <= env.len(),
    decreases env.len(),
{
    if env.len() > 0 {
        lemma_lookup_bound(env.drop_last(), z);
    }
}

/// Substitution keeps terms free of macro invocations and their links
/// closed.
pub proof fn lemma_subst_plain(t: Term, x: Name, r: Term)
    requires
        t.macro_free(),
        t.named_closed(),
        r.macro_free(),
        r.named_closed(),
    ensures
        t.subst(x, r).macro_free(),
        t.subst(x, r).named_closed(),
    decreases t.size(),
{
    match t {
        Term::Abs(w, c) => {
            if w != x {
                if r.has_free(w) {
                    let z = Term::fresh(w, *c, x, r);
                    c.lemma_replace_free_size(w, z);
                    lemma_replace_free_plain(*c, w, z);
                    lemma_subst_plain(c.replace_free(w, z), x, r);
                } else {
                    lemma_subst_plain(*c, x, r);
                }
            }
        },
        Term::App(l, a) => {
            lemma_subst_plain(*l, x, r);
            lemma_subst_plain(*a, x, r);
        },
        _ => {},
    }
}

/// Contraction is instantiation. The canonical form of a body with `r` put
/// for `x` is the canonical form of the body below the binder `x`, with the
/// canonical form of `r` for the variable of that binder; `inner` are the
/// binders passed on the way into the body.
pub proof fn lemma_subst_inst(b: Term, x: Name, r: Term, outer: Seq<Name>, inner: Seq<Name>)
    requires
        b.macro_free(),
        b.named_closed(),
        r.macro_free(),
        lookup(inner, x) is None,
        forall|z: Name| r.has_free(z) ==> lookup(inner, z) is None,
    ensures
        b.subst(x, r).canon(outer + inner) == b.canon(outer + seq![x] + inner).inst(
            inner.len() + 1,
            r.canon(outer + inner),
        ),
    decreases b.size(),
{
    let arg = r.canon(outer + inner);
    match b {
        Term::Var(z) => {
            lemma_lookup_between(outer, x, inner, z);
            lemma_lookup_concat(outer, inner, z);
            lemma_lookup_bound(inner, z);
        },
        Term::Abs(w, c) => {
            assert((outer + seq![x] + inner).push(w) =~= outer + seq![x] + inner.push(w));
            assert((outer + inner).push(w) =~= outer + inner.push(w));
            if w == x {
                lemma_lookup_push(inner, w, x);
                lemma_unused_binder(*c, outer, x, inner.push(w), arg.lift(0));
            } else if r.has_free(w) {
                let z = Term::fresh(w, *c, x, r);
                Term::lemma_fresh_not_rotten(w, *c, x, r);
                let c2 = c.replace_free(w, z);
                c.lemma_replace_free_size(w, z);
                lemma_replace_free_plain(*c, w, z);
                assert((outer + seq![x] + inner).push(z) =~= outer + seq![x] + inner.push(z));
                assert((outer + inner).push(z) =~= outer + inner.push(z));
                lemma_lookup_push(inner, z, x);
                assert forall|v: Name| r.has_free(v) implies lookup(inner.push(z), v) is None by {
                    lemma_lookup_push(inner, z, v);
                }
                lemma_subst_inst(c2, x, r, outer, inner.push(z));
                // the renamed body has the canonical form of the body
                let e1 = (outer + seq![x] + inner).push(w);
                let e2 = (outer + seq![x] + inner).push(z);
                assert(renamed_env(e1, w, e2, z)) by {
                    lemma_lookup_push(outer + seq![x] + inner, w, w);
                    lemma_lookup_push(outer + seq![x] + inner, z, z);
                    assert forall|v: Name| v != w && v != z implies lookup(e1, v) == lookup(
                        e2,
                        v,
                    ) by {
                        lemma_lookup_push(outer + seq![x] + inner, w, v);
                        lemma_lookup_push(outer + seq![x] + inner, z, v);
                    }
                }
                lemma_rename_canon(*c, w, z, e1, e2);
                // below the new binder the argument is lifted
                assert(outer + inner + seq![z] =~= (outer + inner).push(z));
                assert(outer + inner + seq![z] + Seq::<Name>::empty() =~= (outer + inner).push(z));
                assert(outer + inner + Seq::<Name>::empty() =~= outer + inner);
                lemma_weaken(r, outer + inner, z, Seq::empty());
            } else {
                lemma_lookup_push(inner, w, x);
                assert forall|v: Name| r.has_free(v) implies lookup(inner.push(w), v) is None by {
                    lemma_lookup_push(inner, w, v);
                }
                lemma_subst_inst(*c, x, r, outer, inner.push(w));
                assert(outer + inner + seq![w] + Seq::<Name>::empty() =~= (outer + inner).push(w));
                assert(outer + inner + Seq::<Name>::empty() =~= outer + inner);
                lemma_weaken(r, outer + inner, w, Seq::empty());
            }
        },
        Term::App(l, a) => {
            lemma_subst_inst(*l, x, r, outer, inner);
            lemma_subst_inst(*a, x, r, outer, inner);
        },
        Term::Named(_, u) => {
            assert(!u.has_free(x));
            lemma_unused_binder(b, outer, x, inner, arg);
        },
        Term::Num(_) => {
            lemma_unused_binder(b, outer, x, inner, arg);
        },
        Term::Deferred(_, _) => {},
    }
}

/// The canonical form of a term is an abstraction exactly where the term is,
/// links to or, as a numeral, stands for one; it is then the abstraction of
/// the canonical form of the body.
pub proof fn lemma_head_canon(t: Term, env: Seq<Name>)
    requires
        t.macro_free(),
        t.named_closed(),
    ensures
        match head_abs(t) {
            Some((x, b)) => t.canon(env) == Canon::Abs(Box::new(b.canon(env.push(x))))
                && b.macro_free() && b.named_closed(),
            None => !(t.canon(env) is Abs),
        },
    decreases t,
{
    match t {
        Term::Named(_, u) => {
            lemma_head_canon(*u, env);
        },
        Term::Num(n) => {
            lemma_church_plain(n);
            reveal_with_fuel(Term::macro_free, 2);
            reveal_with_fuel(Term::named_closed, 2);
            reveal_with_fuel(Term::canon, 2);
        },
        _ => {},
    }
}

/// The canonical form of an expanded numeral holds no redex.
pub proof fn lemma_church_normal(n: nat, env: Seq<Name>)
    requires
        lookup(env, name_f()) is Some,
    ensures
        !church_body(n).canon(env).has_redex(),
        !(church_body(n).canon(env) is Abs),
    decreases n,
{
    reveal_with_fuel(Term::canon, 2);
    reveal_with_fuel(Canon::has_redex, 2);
    if n > 0 {
        lemma_church_normal((n - 1) as nat, env);
    }
}

/// One contraction by a strategy is one contraction of the canonical form,
/// and leaves a term free of macro invocations whose links are closed.
pub proof fn lemma_step_canon(s: Strategy, t: Term, env: Seq<Name>)
    requires
        t.macro_free(),
        t.named_closed(),
        s.find(t) is Some,
    ensures
        t.canon(env).steps_to(s.find(t)->0.reduct.canon(env)),
        s.find(t)->0.reduct.macro_free(),
        s.find(t)->0.reduct.named_closed(),
    decreases t,
{
    match t {
        Term::Named(_, u) => {
            lemma_step_canon(s, *u, env);
        },
        Term::Abs(x, b) => {
            lemma_step_canon(s, *b, env.push(x));
        },
        Term::App(l, r) => {
            match s.side(*l, *r) {
                Side::Here => {
                    lemma_head_canon(*l, env);
                    let (x, body) = head_abs(*l)->0;
                    assert(env + seq![x] + Seq::<Name>::empty() =~= env.push(x));
                    assert(env + Seq::<Name>::empty() =~= env);
                    lemma_subst_inst(body, x, *r, env, Seq::empty());
                    lemma_subst_plain(body, x, *r);
                    assert(s.find(t)->0.reduct == body.subst(x, *r));
                },
                Side::Left => {
                    lemma_step_canon(s, *l, env);
                },
                Side::Right => {
                    lemma_step_canon(s, *r, env);
                },
                Side::Nowhere => {},
            }
        },
        _ => {},
    }
}

/// Where the normal or the applicative strategy finds no redex, the canonical
/// form holds none.
pub proof fn lemma_normal_canon(s: Strategy, t: Term, env: Seq<Name>)
    requires
        s != Strategy::CallByName,
        t.macro_free(),
        t.named_closed(),
        s.find(t) is None,
    ensures
        !t.canon(env).has_redex(),
    decreases t,
{
    match t {
        Term::Named(_, u) => {
            lemma_normal_canon(s, *u, env);
        },
        Term::Abs(x, b) => {
            lemma_normal_canon(s, *b, env.push(x));
        },
        Term::App(l, r) => {
            lemma_head_canon(*l, env);
            lemma_normal_canon(s, *l, env);
            lemma_normal_canon(s, *r, env);
        },
        Term::Num(n) => {
            lemma_lookup_push(env, name_f(), name_f());
            lemma_lookup_push(env.push(name_f()), name_x(), name_f());
            lemma_church_normal(n, env.push(name_f()).push(name_x()));
            reveal_with_fuel(Term::canon, 3);
            reveal_with_fuel(Canon::has_redex, 3);
        },
        _ => {},
    }
}

/// The contractions of a strategy are a reduction of the canonical form.
pub proof fn lemma_iterate_path(s: Strategy, t: Term, n: nat) -> (p: Seq<Canon>)
    requires
        t.macro_free(),
        t.named_closed(),
        s.iterate(t, n) is Some,
    ensures
        is_path(p),
        p.len() == n + 1,
        p.first() == t.canon(Seq::empty()),
        p.last() == s.iterate(t, n)->0.canon(Seq::empty()),
        s.iterate(t, n)->0.macro_free(),
        s.iterate(t, n)->0.named_closed(),
    decreases n,
{
    if n == 0 {
        seq![t.canon(Seq::empty())]
    } else {
        let before = lemma_iterate_path(s, t, (n - 1) as nat);
        let w = s.iterate(t, (n - 1) as nat)->0;
        lemma_step_canon(s, w, Seq::empty());
        let p = before.push(s.iterate(t, n)->0.canon(Seq::empty()));
        assert forall|i: int| 0 <= i < p.len() - 1 implies (#[trigger] p[i]).steps_to(p[i + 1]) by {
            if i < before.len() - 1 {
                assert(before[i].steps_to(before[i + 1]));
            }
        }
        p
    }
}

/// Agreement of the strategies. Where normalizing a term by the normal or
/// the applicative strategy ends, and normalizing it by the normal or the
/// applicative strategy ends too, the two results are equal up to the names
/// of bound variables: a term has one normal form at most, whatever the
/// order in which its redexes are contracted. It is stated of terms that a
/// canonical form exists for, and holds where every stored term that the
/// term links to is closed. Neither strategy is bound to end where the other
/// does.
pub proof fn lemma_strategies_agree(
    t: Term,
    first: Strategy,
    n: nat,
    u: Term,
    second: Strategy,
    m: nat,
    v: Term,
)
    requires
        t.macro_free(),
        t.named_closed(),
        first != Strategy::CallByName,
        second != Strategy::CallByName,
        first.iterate(t, n) == Some(u),
        first.is_normal(u),
        second.iterate(t, m) == Some(v),
        second.is_normal(v),
    ensures
        u.alpha_eq(v),
{
    let p = lemma_iterate_path(first, t, n);
    let q = lemma_iterate_path(second, t, m);
    lemma_normal_canon(first, u, Seq::empty());
    lemma_normal_canon(second, v, Seq::empty());
    lemma_unique_normal_form(p, q);
}

/// The normal and the applicative strategy have the same normal forms: where
/// one finds no redex, neither does the other.
pub proof fn lemma_same_normal_forms(t: Term)
    ensures
        Strategy::Normal.is_normal(t) <==> Strategy::Applicative.is_normal(t),
    decreases t,
{
    match t {
        Term::Named(_, u) => {
            lemma_same_normal_forms(*u);
        },
        Term::Abs(_, b) => {
            lemma_same_normal_forms(*b);
        },
        Term::App(l, r) => {
            lemma_same_normal_forms(*l);
            lemma_same_normal_forms(*r);
        },
        _ => {},
    }
}

} // verus!
