use vstd::prelude::*;
use crate::debruijn::Canon;

verus! {

impl Canon {
    /// The form as it reads below one binder more, entered `k` binders up:
    /// every distance above `k` grows by one.
    pub open spec fn lift(self, k: nat) -> Canon
        decreases self,
    {
        match self {
            Canon::Bound(d) => if d > k {
                Canon::Bound(d + 1)
            } else {
                self
            },
            Canon::Free(_) => self,
            Canon::Abs(b) => Canon::Abs(Box::new(b.lift(k + 1))),
            Canon::App(f, a) => Canon::App(Box::new(f.lift(k)), Box::new(a.lift(k))),
        }
    }

    /// The form with `a` for the variable whose binder lies `k` binders up,
    /// that binder taken away: every distance above `k` shrinks by one.
    pub open spec fn inst(self, k: nat, a: Canon) -> Canon
        decreases self,
    {
        match self {
            Canon::Bound(d) => if d == k {
                a
            } else if d > k {
                Canon::Bound((d - 1) as nat)
            } else {
                self
            },
            Canon::Free(_) => self,
            Canon::Abs(b) => Canon::Abs(Box::new(b.inst(k + 1, a.lift(0)))),
            Canon::App(f, x) => Canon::App(Box::new(f.inst(k, a)), Box::new(x.inst(k, a))),
        }
    }

    /// `other` is the form after one contraction: of a redex, the application
    /// of an abstraction, to the body of the abstraction with the argument
    /// for its variable; somewhere in the form.
    pub open spec fn steps_to(self, other: Canon) -> bool
        decreases self,
    {
        match self {
            Canon::App(f, a) => {
                ||| (*f is Abs && other == f->Abs_0.inst(1, *a))
                ||| (other is App && f.steps_to(*other->App_0) && *other->App_1 == *a)
                ||| (other is App && *other->App_0 == *f && a.steps_to(*other->App_1))
            },
            Canon::Abs(b) => other is Abs && b.steps_to(*other->Abs_0),
            _ => false,
        }
    }

    /// A redex stands somewhere in the form.
    pub open spec fn has_redex(self) -> bool
        decreases self,
    {
        match self {
            Canon::App(f, a) => *f is Abs || f.has_redex() || a.has_redex(),
            Canon::Abs(b) => b.has_redex(),
            _ => false,
        }
    }

    /// The complete development: the form with every redex that stands in it
    /// contracted, the inner ones first.
    pub open spec fn develop(self) -> Canon
        decreases self,
    {
        match self {
            Canon::App(f, a) => match *f {
                Canon::Abs(b) => b.develop().inst(1, a.develop()),
                _ => Canon::App(Box::new(f.develop()), Box::new(a.develop())),
            },
            Canon::Abs(b) => Canon::Abs(Box::new(b.develop())),
            _ => self,
        }
    }

    /// The form developed `n` times over.
    pub open spec fn develop_times(self, n: nat) -> Canon
        decreases n,
    {
        if n == 0 {
            self
        } else {
            self.develop_times((n - 1) as nat).develop()
        }
    }
}

/// Two lifts change places.
pub proof fn lemma_lift_lift(c: Canon, i: nat, j: nat)
    requires
        i <= j,
    ensures
        c.lift(j).lift(i) == c.lift(i).lift(j + 1),
    decreases c,
{
    match c {
        Canon::Abs(b) => {
            lemma_lift_lift(*b, i + 1, j + 1);
        },
        Canon::App(f, a) => {
            lemma_lift_lift(*f, i, j);
            lemma_lift_lift(*a, i, j);
        },
        _ => {},
    }
}

/// A lift from above goes through an instantiation.
pub proof fn lemma_lift_inst_above(c: Canon, k: nat, a: Canon, i: nat)
    requires
        1 <= k <= i + 1,
    ensures
        c.inst(k, a).lift(i) == c.lift(i + 1).inst(k, a.lift(i)),
    decreases c,
{
    match c {
        Canon::Abs(b) => {
            lemma_lift_inst_above(*b, k + 1, a.lift(0), i + 1);
            lemma_lift_lift(a, 0, i);
        },
        Canon::App(f, x) => {
            lemma_lift_inst_above(*f, k, a, i);
            lemma_lift_inst_above(*x, k, a, i);
        },
        _ => {},
    }
}

/// A lift from below goes through an instantiation.
pub proof fn lemma_lift_inst_below(c: Canon, k: nat, a: Canon, i: nat)
    requires
        i < k,
    ensures
        c.inst(k, a).lift(i) == c.lift(i).inst(k + 1, a.lift(i)),
    decreases c,
{
    match c {
        Canon::Abs(b) => {
            lemma_lift_inst_below(*b, k + 1, a.lift(0), i + 1);
            lemma_lift_lift(a, 0, i);
        },
        Canon::App(f, x) => {
            lemma_lift_inst_below(*f, k, a, i);
            lemma_lift_inst_below(*x, k, a, i);
        },
        _ => {},
    }
}

/// Instantiating the variable that a lift made room for undoes the lift.
pub proof fn lemma_inst_lift(c: Canon, j: nat, a: Canon)
    ensures
        c.lift(j).inst(j + 1, a) == c,
    decreases c,
{
    match c {
        Canon::Abs(b) => {
            lemma_inst_lift(*b, j + 1, a.lift(0));
        },
        Canon::App(f, x) => {
            lemma_inst_lift(*f, j, a);
            lemma_inst_lift(*x, j, a);
        },
        _ => {},
    }
}

/// Two instantiations change places.
pub proof fn lemma_inst_inst(c: Canon, k: nat, a: Canon, j: nat, b: Canon)
    requires
        1 <= k <= j,
    ensures
        c.inst(k, a).inst(j, b) == c.inst(j + 1, b.lift((k - 1) as nat)).inst(k, a.inst(j, b)),
    decreases c,
{
    match c {
        Canon::Bound(d) => {
            if d == j + 1 {
                lemma_inst_lift(b, (k - 1) as nat, a.inst(j, b));
            }
        },
        Canon::Abs(body) => {
            lemma_inst_inst(*body, k + 1, a.lift(0), j + 1, b.lift(0));
            lemma_lift_lift(b, 0, (k - 1) as nat);
            lemma_lift_inst_below(a, j, b, 0);
        },
        Canon::App(f, x) => {
            lemma_inst_inst(*f, k, a, j, b);
            lemma_inst_inst(*x, k, a, j, b);
        },
        _ => {},
    }
}

/// A contraction stays one below one binder more.
pub proof fn lemma_step_lift(c: Canon, c2: Canon, k: nat)
    requires
        c.steps_to(c2),
    ensures
        c.lift(k).steps_to(c2.lift(k)),
    decreases c,
{
    reveal_with_fuel(Canon::lift, 2);
    match c {
        Canon::App(f, a) => {
            if *f is Abs && c2 == f->Abs_0.inst(1, *a) {
                lemma_lift_inst_above(*f->Abs_0, 1, *a, k);
            } else if c2 is App && f.steps_to(*c2->App_0) && *c2->App_1 == *a {
                lemma_step_lift(*f, *c2->App_0, k);
            } else {
                lemma_step_lift(*a, *c2->App_1, k);
            }
        },
        Canon::Abs(b) => {
            lemma_step_lift(*b, *c2->Abs_0, k + 1);
        },
        _ => {},
    }
}

/// A contraction stays one where a variable is instantiated.
pub proof fn lemma_step_inst(c: Canon, c2: Canon, k: nat, a: Canon)
    requires
        c.steps_to(c2),
        k >= 1,
    ensures
        c.inst(k, a).steps_to(c2.inst(k, a)),
    decreases c,
{
    reveal_with_fuel(Canon::inst, 2);
    match c {
        Canon::App(f, x) => {
            if *f is Abs && c2 == f->Abs_0.inst(1, *x) {
                lemma_inst_inst(*f->Abs_0, 1, *x, k, a);
            } else if c2 is App && f.steps_to(*c2->App_0) && *c2->App_1 == *x {
                lemma_step_inst(*f, *c2->App_0, k, a);
            } else {
                lemma_step_inst(*x, *c2->App_1, k, a);
            }
        },
        Canon::Abs(b) => {
            lemma_step_inst(*b, *c2->Abs_0, k + 1, a.lift(0));
        },
        _ => {},
    }
}

/// `p` is a reduction: each form is a contraction of the one before it.
pub open spec fn is_path(p: Seq<Canon>) -> bool {
    &&& p.len() >= 1
    &&& forall|i: int| 0 <= i < p.len() - 1 ==> (#[trigger] p[i]).steps_to(p[i + 1])
}

/// `p` is a reduction that leads from `c` to `c2`.
pub open spec fn connects(p: Seq<Canon>, c: Canon, c2: Canon) -> bool {
    is_path(p) && p.first() == c && p.last() == c2
}

/// A reduction followed by another that starts where it ends.
pub proof fn path_concat(p: Seq<Canon>, q: Seq<Canon>) -> (r: Seq<Canon>)
    requires
        is_path(p),
        is_path(q),
        p.last() == q.first(),
    ensures
        connects(r, p.first(), q.last()),
        r.len() == p.len() + q.len() - 1,
{
    let r = p + q.drop_first();
    assert forall|i: int| 0 <= i < r.len() - 1 implies (#[trigger] r[i]).steps_to(r[i + 1]) by {
        if i < p.len() - 1 {
            assert(p[i].steps_to(p[i + 1]));
        } else {
            assert(q[i - p.len() + 1].steps_to(q[i - p.len() + 2]));
        }
    }
    r
}

/// A reduction with one contraction added at its end.
pub proof fn path_snoc(p: Seq<Canon>, c: Canon) -> (r: Seq<Canon>)
    requires
        is_path(p),
        p.last().steps_to(c),
    ensures
        connects(r, p.first(), c),
{
    let r = p.push(c);
    assert forall|i: int| 0 <= i < r.len() - 1 implies (#[trigger] r[i]).steps_to(r[i + 1]) by {
        if i < p.len() - 1 {
            assert(p[i].steps_to(p[i + 1]));
        }
    }
    r
}

/// A reduction, carried out below a binder.
pub proof fn path_abs(p: Seq<Canon>) -> (r: Seq<Canon>)
    requires
        is_path(p),
    ensures
        connects(r, Canon::Abs(Box::new(p.first())), Canon::Abs(Box::new(p.last()))),
{
    let r = Seq::new(p.len(), |i: int| Canon::Abs(Box::new(p[i])));
    assert forall|i: int| 0 <= i < r.len() - 1 implies (#[trigger] r[i]).steps_to(r[i + 1]) by {
        assert(p[i].steps_to(p[i + 1]));
    }
    r
}

/// A reduction, carried out in the function side of an application.
pub proof fn path_app_left(p: Seq<Canon>, a: Canon) -> (r: Seq<Canon>)
    requires
        is_path(p),
    ensures
        connects(
            r,
            Canon::App(Box::new(p.first()), Box::new(a)),
            Canon::App(Box::new(p.last()), Box::new(a)),
        ),
{
    let r = Seq::new(p.len(), |i: int| Canon::App(Box::new(p[i]), Box::new(a)));
    assert forall|i: int| 0 <= i < r.len() - 1 implies (#[trigger] r[i]).steps_to(r[i + 1]) by {
        assert(p[i].steps_to(p[i + 1]));
    }
    r
}

/// A reduction, carried out in the argument side of an application.
pub proof fn path_app_right(f: Canon, p: Seq<Canon>) -> (r: Seq<Canon>)
    requires
        is_path(p),
    ensures
        connects(
            r,
            Canon::App(Box::new(f), Box::new(p.first())),
            Canon::App(Box::new(f), Box::new(p.last())),
        ),
{
    let r = Seq::new(p.len(), |i: int| Canon::App(Box::new(f), Box::new(p[i])));
    assert forall|i: int| 0 <= i < r.len() - 1 implies (#[trigger] r[i]).steps_to(r[i + 1]) by {
        assert(p[i].steps_to(p[i + 1]));
    }
    r
}

/// Reductions of the two sides of an application, one after the other.
pub proof fn path_app(p: Seq<Canon>, q: Seq<Canon>) -> (r: Seq<Canon>)
    requires
        is_path(p),
        is_path(q),
    ensures
        connects(
            r,
            Canon::App(Box::new(p.first()), Box::new(q.first())),
            Canon::App(Box::new(p.last()), Box::new(q.last())),
        ),
{
    let left = path_app_left(p, q.first());
    let right = path_app_right(p.last(), q);
    path_concat(left, right)
}

/// A reduction, read below one binder more.
pub proof fn path_lift(p: Seq<Canon>, k: nat) -> (r: Seq<Canon>)
    requires
        is_path(p),
    ensures
        connects(r, p.first().lift(k), p.last().lift(k)),
{
    let r = Seq::new(p.len(), |i: int| p[i].lift(k));
    assert forall|i: int| 0 <= i < r.len() - 1 implies (#[trigger] r[i]).steps_to(r[i + 1]) by {
        assert(p[i].steps_to(p[i + 1]));
        lemma_step_lift(p[i], p[i + 1], k);
    }
    r
}

/// A reduction, with a variable instantiated throughout.
pub proof fn path_inst_body(p: Seq<Canon>, k: nat, a: Canon) -> (r: Seq<Canon>)
    requires
        is_path(p),
        k >= 1,
    ensures
        connects(r, p.first().inst(k, a), p.last().inst(k, a)),
{
    let r = Seq::new(p.len(), |i: int| p[i].inst(k, a));
    assert forall|i: int| 0 <= i < r.len() - 1 implies (#[trigger] r[i]).steps_to(r[i + 1]) by {
        assert(p[i].steps_to(p[i + 1]));
        lemma_step_inst(p[i], p[i + 1], k, a);
    }
    r
}

/// A reduction of what is put for a variable, carried out wherever the
/// variable stood.
pub proof fn path_inst_arg(c: Canon, k: nat, p: Seq<Canon>) -> (r: Seq<Canon>)
    requires
        is_path(p),
    ensures
        connects(r, c.inst(k, p.first()), c.inst(k, p.last())),
    decreases c,
{
    match c {
        Canon::Bound(d) => {
            if d == k {
                p
            } else {
                seq![c.inst(k, p.first())]
            }
        },
        Canon::Free(_) => seq![c],
        Canon::Abs(b) => {
            let lifted = path_lift(p, 0);
            let inner = path_inst_arg(*b, k + 1, lifted);
            path_abs(inner)
        },
        Canon::App(f, x) => {
            let left = path_inst_arg(*f, k, p);
            let right = path_inst_arg(*x, k, p);
            path_app(left, right)
        },
    }
}

/// Reductions of a body and of what is put for its variable, combined.
pub proof fn path_inst(p: Seq<Canon>, k: nat, q: Seq<Canon>) -> (r: Seq<Canon>)
    requires
        is_path(p),
        is_path(q),
        k >= 1,
    ensures
        connects(r, p.first().inst(k, q.first()), p.last().inst(k, q.last())),
{
    let body = path_inst_body(p, k, q.first());
    let arg = path_inst_arg(p.last(), k, q);
    path_concat(body, arg)
}

/// Every form reduces to its complete development.
pub proof fn path_develop(c: Canon) -> (r: Seq<Canon>)
    ensures
        connects(r, c, c.develop()),
    decreases c,
{
    match c {
        Canon::App(f, a) => {
            let pa = path_develop(*a);
            match *f {
                Canon::Abs(b) => {
                    let pb = path_develop(*b);
                    let under = path_abs(pb);
                    let inner = path_app(under, pa);
                    path_snoc(inner, b.develop().inst(1, a.develop()))
                },
                _ => {
                    let pf = path_develop(*f);
                    path_app(pf, pa)
                },
            }
        },
        Canon::Abs(b) => {
            let pb = path_develop(*b);
            path_abs(pb)
        },
        _ => seq![c],
    }
}

/// Lifting and developing change places.
pub proof fn lemma_develop_lift(c: Canon, k: nat)
    ensures
        c.lift(k).develop() == c.develop().lift(k),
    decreases c,
{
    reveal_with_fuel(Canon::lift, 2);
    match c {
        Canon::App(f, a) => {
            lemma_develop_lift(*a, k);
            match *f {
                Canon::Abs(b) => {
                    lemma_develop_lift(*b, k + 1);
                    lemma_lift_inst_above(b.develop(), 1, a.develop(), k);
                },
                _ => {
                    lemma_develop_lift(*f, k);
                },
            }
        },
        Canon::Abs(b) => {
            lemma_develop_lift(*b, k + 1);
        },
        _ => {},
    }
}

/// The development of a body, with the development of an argument for its
/// variable, reduces to the development of the body with the argument.
pub proof fn path_develop_inst(b: Canon, k: nat, a: Canon) -> (r: Seq<Canon>)
    requires
        k >= 1,
    ensures
        connects(r, b.develop().inst(k, a.develop()), b.inst(k, a).develop()),
    decreases b,
{
    reveal_with_fuel(Canon::inst, 2);
    let from = b.develop().inst(k, a.develop());
    let to = b.inst(k, a).develop();
    match b {
        Canon::Bound(d) => {
            assert(from == to);
            seq![to]
        },
        Canon::Free(_) => {
            assert(from == to);
            seq![to]
        },
        Canon::Abs(c) => {
            lemma_develop_lift(a, 0);
            let inner = path_develop_inst(*c, k + 1, a.lift(0));
            path_abs(inner)
        },
        Canon::App(f, x) => {
            let px = path_develop_inst(*x, k, a);
            match *f {
                Canon::Abs(c) => {
                    lemma_inst_inst(c.develop(), 1, x.develop(), k, a.develop());
                    lemma_develop_lift(a, 0);
                    let pc = path_develop_inst(*c, k + 1, a.lift(0));
                    let r = path_inst(pc, 1, px);
                    assert(b.develop() == c.develop().inst(1, x.develop()));
                    assert(b.inst(k, a) == Canon::App(
                        Box::new(Canon::Abs(Box::new(c.inst(k + 1, a.lift(0))))),
                        Box::new(x.inst(k, a)),
                    ));
                    assert(r.first() == from);
                    assert(r.last() == to);
                    r
                },
                _ => {
                    assert(b.develop() == Canon::App(Box::new(f.develop()), Box::new(x.develop())));
                    if f.inst(k, a) is Abs {
                        // the function side is the variable itself, and an
                        // abstraction is put for it
                        assert(*f == Canon::Bound(k));
                        let body = a->Abs_0;
                        let start = Canon::App(
                            Box::new(a.develop()),
                            Box::new(x.develop().inst(k, a.develop())),
                        );
                        let contracted = body.develop().inst(1, x.develop().inst(k, a.develop()));
                        assert(a.develop() == Canon::Abs(Box::new(body.develop())));
                        assert(start.steps_to(contracted));
                        let first = path_snoc(seq![start], contracted);
                        let rest = path_inst_arg(body.develop(), 1, px);
                        let r = path_concat(first, rest);
                        assert(start == from);
                        assert(r.last() == to);
                        r
                    } else {
                        let pf = path_develop_inst(*f, k, a);
                        let r = path_app(pf, px);
                        assert(r.first() == from);
                        assert(r.last() == to);
                        r
                    }
                },
            }
        },
    }
}

/// What a form contracts to reduces to the development of the form.
pub proof fn path_step_develop(t: Canon, u: Canon) -> (r: Seq<Canon>)
    requires
        t.steps_to(u),
    ensures
        connects(r, u, t.develop()),
    decreases t,
{
    match t {
        Canon::App(f, a) => {
            let pa = path_develop(*a);
            if *f is Abs && u == f->Abs_0.inst(1, *a) {
                let pb = path_develop(*f->Abs_0);
                path_inst(pb, 1, pa)
            } else if u is App && f.steps_to(*u->App_0) && *u->App_1 == *a {
                let pf = path_step_develop(*f, *u->App_0);
                let both = path_app(pf, pa);
                if *f is Abs {
                    let b = f->Abs_0;
                    assert(f.develop() == Canon::Abs(Box::new(b.develop())));
                    path_snoc(both, b.develop().inst(1, a.develop()))
                } else {
                    both
                }
            } else {
                let px = path_step_develop(*a, *u->App_1);
                if *f is Abs {
                    let b = f->Abs_0;
                    let pb = path_develop(*b);
                    let under = path_abs(pb);
                    let both = path_app(under, px);
                    path_snoc(both, b.develop().inst(1, a.develop()))
                } else {
                    let pf = path_develop(*f);
                    path_app(pf, px)
                }
            }
        },
        Canon::Abs(b) => {
            let pb = path_step_develop(*b, *u->Abs_0);
            path_abs(pb)
        },
        _ => seq![u],
    }
}

/// Where a form contracts to another, its development reduces to the
/// development of the other.
pub proof fn path_develop_step(t: Canon, u: Canon) -> (r: Seq<Canon>)
    requires
        t.steps_to(u),
    ensures
        connects(r, t.develop(), u.develop()),
    decreases t,
{
    match t {
        Canon::App(f, a) => {
            if *f is Abs && u == f->Abs_0.inst(1, *a) {
                path_develop_inst(*f->Abs_0, 1, *a)
            } else if u is App && f.steps_to(*u->App_0) && *u->App_1 == *a {
                let f2 = *u->App_0;
                if *f is Abs {
                    let b = f->Abs_0;
                    let b2 = f2->Abs_0;
                    let pb = path_develop_step(*b, *b2);
                    path_inst_body(pb, 1, a.develop())
                } else {
                    let pf = path_develop_step(*f, f2);
                    let left = path_app_left(pf, a.develop());
                    if f2 is Abs {
                        let b2 = f2->Abs_0;
                        assert(f2.develop() == Canon::Abs(Box::new(b2.develop())));
                        path_snoc(left, b2.develop().inst(1, a.develop()))
                    } else {
                        left
                    }
                }
            } else {
                let a2 = *u->App_1;
                let pa = path_develop_step(*a, a2);
                if *f is Abs {
                    let b = f->Abs_0;
                    path_inst_arg(b.develop(), 1, pa)
                } else {
                    path_app_right(f.develop(), pa)
                }
            }
        },
        Canon::Abs(b) => {
            let pb = path_develop_step(*b, *u->Abs_0);
            path_abs(pb)
        },
        _ => seq![u],
    }
}

/// Where a form reduces to another, its development reduces to the
/// development of the other.
pub proof fn path_develop_path(p: Seq<Canon>) -> (r: Seq<Canon>)
    requires
        is_path(p),
    ensures
        connects(r, p.first().develop(), p.last().develop()),
    decreases p.len(),
{
    if p.len() == 1 {
        seq![p.first().develop()]
    } else {
        let front = p.drop_last();
        assert forall|i: int| 0 <= i < front.len() - 1 implies (#[trigger] front[i]).steps_to(
            front[i + 1],
        ) by {
            assert(p[i].steps_to(p[i + 1]));
        }
        let before = path_develop_path(front);
        assert(p[p.len() - 2].steps_to(p[p.len() - 1]));
        let last = path_develop_step(p[p.len() - 2], p.last());
        path_concat(before, last)
    }
}

/// The end of a reduction of `n` contractions reduces to the form at its
/// start developed `n` times over.
pub proof fn path_to_developments(p: Seq<Canon>) -> (r: Seq<Canon>)
    requires
        is_path(p),
    ensures
        connects(r, p.last(), p.first().develop_times((p.len() - 1) as nat)),
    decreases p.len(),
{
    if p.len() == 1 {
        seq![p.first()]
    } else {
        let front = p.drop_last();
        assert forall|i: int| 0 <= i < front.len() - 1 implies (#[trigger] front[i]).steps_to(
            front[i + 1],
        ) by {
            assert(p[i].steps_to(p[i + 1]));
        }
        let w = front.last();
        assert(w == p[p.len() - 2]);
        assert(p[p.len() - 2].steps_to(p[p.len() - 1]));
        let earlier = path_to_developments(front);
        let here = path_step_develop(w, p.last());
        let there = path_develop_path(earlier);
        path_concat(here, there)
    }
}

/// A form without a redex contracts to nothing.
pub proof fn lemma_normal_no_step(c: Canon, c2: Canon)
    requires
        !c.has_redex(),
    ensures
        !c.steps_to(c2),
    decreases c,
{
    match c {
        Canon::App(f, a) => {
            if c2 is App {
                lemma_normal_no_step(*f, *c2->App_0);
                lemma_normal_no_step(*a, *c2->App_1);
            }
        },
        Canon::Abs(b) => {
            if c2 is Abs {
                lemma_normal_no_step(*b, *c2->Abs_0);
            }
        },
        _ => {},
    }
}

/// A form without a redex is its own development.
pub proof fn lemma_normal_develop(c: Canon, n: nat)
    requires
        !c.has_redex(),
    ensures
        c.develop() == c,
        c.develop_times(n) == c,
    decreases n, c,
{
    match c {
        Canon::App(f, a) => {
            lemma_normal_develop(*f, 0);
            lemma_normal_develop(*a, 0);
        },
        Canon::Abs(b) => {
            lemma_normal_develop(*b, 0);
        },
        _ => {},
    }
    if n > 0 {
        lemma_normal_develop(c, (n - 1) as nat);
    }
}

/// A reduction from a form without a redex goes nowhere.
pub proof fn lemma_normal_path(p: Seq<Canon>)
    requires
        is_path(p),
        !p.first().has_redex(),
    ensures
        p.last() == p.first(),
{
    if p.len() > 1 {
        assert(p[0].steps_to(p[1]));
        lemma_normal_no_step(p[0], p[1]);
    }
}

/// Developing `n` times and then `m` times is developing `n + m` times.
pub proof fn lemma_develop_times_add(c: Canon, n: nat, m: nat)
    ensures
        c.develop_times(n).develop_times(m) == c.develop_times(n + m),
    decreases m,
{
    if m > 0 {
        lemma_develop_times_add(c, n, (m - 1) as nat);
    }
}

/// Normal forms are unique: two reductions from one form that both end in a
/// form without a redex end in the same form.
pub proof fn lemma_unique_normal_form(p: Seq<Canon>, q: Seq<Canon>)
    requires
        is_path(p),
        is_path(q),
        p.first() == q.first(),
        !p.last().has_redex(),
        !q.last().has_redex(),
    ensures
        p.last() == q.last(),
{
    let t = p.first();
    let n = (p.len() - 1) as nat;
    let m = (q.len() - 1) as nat;
    let pu = path_to_developments(p);
    let qv = path_to_developments(q);
    lemma_normal_path(pu);
    lemma_normal_path(qv);
    // both ends are developments of the start
    assert(p.last() == t.develop_times(n));
    assert(q.last() == t.develop_times(m));
    if n <= m {
        lemma_develop_times_add(t, n, (m - n) as nat);
        lemma_normal_develop(p.last(), (m - n) as nat);
    } else {
        lemma_develop_times_add(t, m, (n - m) as nat);
        lemma_normal_develop(q.last(), (n - m) as nat);
    }
}

} // verus!
