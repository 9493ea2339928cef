use vstd::prelude::*;
use vstd::string::{StrSliceExecFns, StringExecFns};
use crate::lambda::{LambdaNode, LambdaTree};
use crate::alpha::lemma_church_closed;
use crate::term::{church, lemma_church_plain, lemma_church_weight, Term};
use crate::text::{decimal, decimal_string, Name};

verus! {

/// The state of a type variable: not yet bound, with its name and level, or
/// bound to a type.
#[derive(Debug)]
pub enum TypeVariable {
    Unbound(String, usize),
    Link(Box<Type>),
}

/// A simple type: a type variable, by its number, or a function type.
#[derive(Debug)]
pub enum Type {
    TypeVar(usize),
    TypeArrow(Box<Type>, Box<Type>),
}

/// What the machine knows of its type variables, as the contracts see it.
pub struct Store {
    /// For each variable, the type that it is bound to, if it is bound.
    pub links: Seq<Option<Type>>,
    /// For each bound variable, the moment at which it was bound.
    pub stamps: Seq<nat>,
    /// The moment that the next binding will bear.
    pub clock: nat,
}

/// The letters that name the first type variables.
pub open spec fn letters() -> Seq<char> {
    "ABCDEFGHIJKLMNOPQRSTUVWXYZ"@
}

/// The name of the type variable with the number `n`: a capital letter for
/// the first twenty-six, `T` and the number for the others.
pub open spec fn gensym_name(n: nat) -> Seq<char> {
    if n < 26 {
        letters().subrange(n as int, n as int + 1)
    } else {
        seq!['T'] + decimal(n)
    }
}

impl Type {
    /// The type variable with the number `j`.
    pub open spec fn var(j: usize) -> Type {
        Type::TypeVar(j)
    }

    /// The number of nodes of the type.
    pub open spec fn size(self) -> nat
        decreases self,
    {
        match self {
            Type::TypeVar(_) => 1,
            Type::TypeArrow(a, b) => 1 + a.size() + b.size(),
        }
    }

    /// The variable with the number `i` stands in the type.
    pub open spec fn holds(self, i: nat) -> bool
        decreases self,
    {
        match self {
            Type::TypeVar(j) => j == i,
            Type::TypeArrow(a, b) => a.holds(i) || b.holds(i),
        }
    }

    /// The type with the type that `th` holds for it in place of each
    /// variable.
    pub open spec fn apply(self, th: Seq<Type>) -> Type
        decreases self,
    {
        match self {
            Type::TypeVar(i) => if i < th.len() {
                th[i as int]
            } else {
                self
            },
            Type::TypeArrow(a, b) => Type::TypeArrow(
                Box::new(a.apply(th)),
                Box::new(b.apply(th)),
            ),
        }
    }

    /// The type as it is written: a variable by its name, a function type as
    /// `(argument -> result)`.
    pub open spec fn show(self) -> Seq<char>
        decreases self,
    {
        match self {
            Type::TypeVar(i) => gensym_name(i as nat),
            Type::TypeArrow(a, b) => "("@ + a.show() + " -> "@ + b.show() + ")"@,
        }
    }

    /// A copy of the type.
    pub fn duplicate(&self) -> (r: Type)
        ensures
            r == *self,
        decreases self,
    {
        match self {
            Type::TypeVar(i) => Type::TypeVar(*i),
            Type::TypeArrow(a, b) => Type::TypeArrow(
                Box::new(a.duplicate()),
                Box::new(b.duplicate()),
            ),
        }
    }

    /// Whether the two types are the same.
    pub fn same(&self, other: &Type) -> (r: bool)
        ensures
            r == (*self == *other),
        decreases self,
    {
        match (self, other) {
            (Type::TypeVar(i), Type::TypeVar(j)) => *i == *j,
            (Type::TypeArrow(a1, b1), Type::TypeArrow(a2, b2)) => a1.same(a2) && b1.same(b2),
            _ => false,
        }
    }

    /// The type as it is written.
    pub fn to_string(&self) -> (r: String)
        ensures
            r@ == self.show(),
        decreases self,
    {
        match self {
            Type::TypeVar(i) => gensym_text(*i),
            Type::TypeArrow(a, b) => {
                let mut s = String::from_str("(");
                s.append(a.to_string().as_str());
                s.append(" -> ");
                s.append(b.to_string().as_str());
                s.append(")");
                s
            },
        }
    }
}

impl Clone for Type {
    fn clone(&self) -> (r: Self)
        ensures
            r == *self,
    {
        self.duplicate()
    }
}

/// The name of the type variable with the number `n`.
pub fn gensym_text(n: usize) -> (r: String)
    ensures
        r@ == gensym_name(n as nat),
{
    if n < 26 {
        proof {
            reveal_strlit("ABCDEFGHIJKLMNOPQRSTUVWXYZ");
        }
        String::from_str("ABCDEFGHIJKLMNOPQRSTUVWXYZ".substring_char(n, n + 1))
    } else {
        proof {
            reveal_strlit("T");
        }
        let mut s = String::from_str("T");
        s.append(decimal_string(n).as_str());
        assert(s@ =~= seq!['T'] + decimal(n as nat));
        s
    }
}

impl Store {
    /// Every variable of `t` has a number that the store knows.
    pub open spec fn in_range(self, t: Type) -> bool
        decreases t,
    {
        match t {
            Type::TypeVar(j) => j < self.links.len(),
            Type::TypeArrow(a, b) => self.in_range(*a) && self.in_range(*b),
        }
    }

    /// Every bound variable of `t` was bound after the moment `s`.
    pub open spec fn later(self, t: Type, s: nat) -> bool
        decreases t,
    {
        match t {
            Type::TypeVar(j) => j < self.links.len() && (self.links[j as int] is Some
                ==> self.stamps[j as int] > s),
            Type::TypeArrow(a, b) => self.later(*a, s) && self.later(*b, s),
        }
    }

    /// No variable of `t` is bound.
    pub open spec fn flat(self, t: Type) -> bool
        decreases t,
    {
        match t {
            Type::TypeVar(j) => j < self.links.len() && self.links[j as int] is None,
            Type::TypeArrow(a, b) => self.flat(*a) && self.flat(*b),
        }
    }

    /// The invariant of the store: a variable is bound to a type whose own
    /// bound variables were bound later, so that no chain of bindings comes
    /// back to where it began.
    pub open spec fn wf(self) -> bool {
        &&& self.stamps.len() == self.links.len()
        &&& forall|i: int|
            0 <= i < self.links.len() && (#[trigger] self.links[i]) is Some ==> self.stamps[i]
                < self.clock && self.later(self.links[i]->0, self.stamps[i])
    }

    /// For a bound variable, how long ago it was bound; 0 for any other.
    pub open spec fn age(self, j: int) -> nat {
        if 0 <= j < self.links.len() && self.links[j] is Some && self.stamps[j] < self.clock {
            (self.clock - self.stamps[j]) as nat
        } else {
            0
        }
    }

    /// The greatest age among the variables of `t`.
    pub open spec fn max_age(self, t: Type) -> nat
        decreases t,
    {
        match t {
            Type::TypeVar(j) => self.age(j as int),
            Type::TypeArrow(a, b) => if self.max_age(*a) >= self.max_age(*b) {
                self.max_age(*a)
            } else {
                self.max_age(*b)
            },
        }
    }

    /// A type whose bound variables were bound after `s` is younger than a
    /// variable bound at `s`.
    pub proof fn lemma_later_age(self, t: Type, s: nat)
        requires
            self.later(t, s),
            s < self.clock,
        ensures
            self.max_age(t) < self.clock - s,
        decreases t,
    {
        match t {
            Type::TypeVar(_) => {},
            Type::TypeArrow(a, b) => {
                self.lemma_later_age(*a, s);
                self.lemma_later_age(*b, s);
            },
        }
    }

    /// The type that `t` stands for: `t` with every bound variable replaced by
    /// what it is bound to, and so on until no bound variable is left.
    pub open spec fn resolve(self, t: Type) -> Type
        decreases self.max_age(t), t.size(),
        when self.wf()
        via Self::resolve_decreases
    {
        match t {
            Type::TypeVar(j) => if j < self.links.len() && self.links[j as int] is Some {
                self.resolve(self.links[j as int]->0)
            } else {
                t
            },
            Type::TypeArrow(a, b) => Type::TypeArrow(
                Box::new(self.resolve(*a)),
                Box::new(self.resolve(*b)),
            ),
        }
    }

    #[via_fn]
    proof fn resolve_decreases(self, t: Type) {
        match t {
            Type::TypeVar(j) => {
                if j < self.links.len() && self.links[j as int] is Some {
                    self.lemma_later_age(self.links[j as int]->0, self.stamps[j as int]);
                    self.lemma_later_in_range(self.links[j as int]->0, self.stamps[j as int]);
                }
            },
            Type::TypeArrow(a, b) => {},
        }
    }

    /// What was bound later than some moment is known to the store.
    pub proof fn lemma_later_in_range(self, t: Type, s: nat)
        requires
            self.later(t, s),
        ensures
            self.in_range(t),
        decreases t,
    {
        match t {
            Type::TypeVar(_) => {},
            Type::TypeArrow(a, b) => {
                self.lemma_later_in_range(*a, s);
                self.lemma_later_in_range(*b, s);
            },
        }
    }

    /// The size of `t` with every bound variable counted together with what
    /// it is bound to.
    pub open spec fn deep_size(self, t: Type) -> nat
        decreases self.max_age(t), t.size(),
        when self.wf()
        via Self::deep_size_decreases
    {
        match t {
            Type::TypeVar(j) => if j < self.links.len() && self.links[j as int] is Some {
                1 + self.deep_size(self.links[j as int]->0)
            } else {
                1
            },
            Type::TypeArrow(a, b) => 1 + self.deep_size(*a) + self.deep_size(*b),
        }
    }

    #[via_fn]
    proof fn deep_size_decreases(self, t: Type) {
        match t {
            Type::TypeVar(j) => {
                if j < self.links.len() && self.links[j as int] is Some {
                    self.lemma_later_age(self.links[j as int]->0, self.stamps[j as int]);
                    self.lemma_later_in_range(self.links[j as int]->0, self.stamps[j as int]);
                }
            },
            Type::TypeArrow(a, b) => {},
        }
    }

    /// The number of variables among the first `n` that are not bound.
    pub open spec fn unbound_upto(self, n: nat) -> nat
        decreases n,
    {
        if n == 0 || n > self.links.len() {
            0
        } else {
            self.unbound_upto((n - 1) as nat) + if self.links[n - 1] is None {
                1nat
            } else {
                0nat
            }
        }
    }

    /// The number of variables that are not bound.
    pub open spec fn unbound(self) -> nat {
        self.unbound_upto(self.links.len())
    }

    /// The store once the unbound variable `i` is bound to `u`.
    pub open spec fn bind(self, i: int, u: Type) -> Store {
        Store {
            links: self.links.update(i, Some(u)),
            stamps: self.stamps.update(i, self.clock),
            clock: self.clock + 1,
        }
    }

    /// The store with one more variable, not bound.
    pub open spec fn grow(self) -> Store {
        Store { links: self.links.push(None), stamps: self.stamps.push(0), clock: self.clock }
    }

    /// Binding a variable leaves one unbound variable fewer among the first
    /// `n`, if the variable is among them.
    pub proof fn lemma_bind_unbound(self, i: int, u: Type, n: nat)
        requires
            0 <= i < self.links.len(),
            self.links[i] is None,
            n <= self.links.len(),
        ensures
            self.bind(i, u).unbound_upto(n) + (if i < n {
                1nat
            } else {
                0nat
            }) == self.unbound_upto(n),
        decreases n,
    {
        if n > 0 {
            self.lemma_bind_unbound(i, u, (n - 1) as nat);
        }
    }

    /// What is in range, later or flat stays so where the bindings of the
    /// variables in question stay.
    pub proof fn lemma_bind_keeps(self, i: int, u: Type, t: Type, s: nat)
        requires
            0 <= i < self.links.len(),
            self.links[i] is None,
            self.stamps.len() == self.links.len(),
        ensures
            self.in_range(t) ==> self.bind(i, u).in_range(t),
            self.later(t, s) && s < self.clock ==> self.bind(i, u).later(t, s),
            self.flat(t) && !t.holds(i as nat) ==> self.bind(i, u).flat(t),
            self.flat(t) && !t.holds(i as nat) ==> self.bind(i, u).later(t, self.clock),
        decreases t,
    {
        match t {
            Type::TypeVar(_) => {},
            Type::TypeArrow(a, b) => {
                self.lemma_bind_keeps(i, u, *a, s);
                self.lemma_bind_keeps(i, u, *b, s);
            },
        }
    }

    /// Binding an unbound variable to a type whose variables are all unbound,
    /// and which does not hold the variable itself, keeps the invariant.
    pub proof fn lemma_bind_wf(self, i: int, u: Type)
        requires
            self.wf(),
            0 <= i < self.links.len(),
            self.links[i] is None,
            self.flat(u),
            !u.holds(i as nat),
        ensures
            self.bind(i, u).wf(),
            self.bind(i, u).unbound() + 1 == self.unbound(),
    {
        let after = self.bind(i, u);
        assert forall|k: int|
            0 <= k < after.links.len() && (#[trigger] after.links[k]) is Some implies after.stamps[k]
            < after.clock && after.later(after.links[k]->0, after.stamps[k]) by {
            if k == i {
                self.lemma_bind_keeps(i, u, u, 0);
            } else {
                self.lemma_bind_keeps(i, u, self.links[k]->0, self.stamps[k]);
            }
        }
        self.lemma_bind_unbound(i, u, self.links.len());
    }

    /// One more variable keeps what was in range, later or flat.
    pub proof fn lemma_grow_keeps(self, t: Type, s: nat)
        requires
            self.stamps.len() == self.links.len(),
        ensures
            self.in_range(t) ==> self.grow().in_range(t),
            self.later(t, s) ==> self.grow().later(t, s),
        decreases t,
    {
        match t {
            Type::TypeVar(_) => {},
            Type::TypeArrow(a, b) => {
                self.lemma_grow_keeps(*a, s);
                self.lemma_grow_keeps(*b, s);
            },
        }
    }

    /// One more variable keeps the invariant.
    pub proof fn lemma_grow_wf(self)
        requires
            self.wf(),
        ensures
            self.grow().wf(),
    {
        let after = self.grow();
        assert forall|k: int|
            0 <= k < after.links.len() && (#[trigger] after.links[k]) is Some implies after.stamps[k]
            < after.clock && after.later(after.links[k]->0, after.stamps[k]) by {
            self.lemma_grow_keeps(self.links[k]->0, self.stamps[k]);
        }
    }

    /// What a type stands for holds no bound variable.
    pub proof fn lemma_resolve_flat(self, t: Type)
        requires
            self.wf(),
            self.in_range(t),
        ensures
            self.flat(self.resolve(t)),
        decreases self.max_age(t), t.size(),
    {
        match t {
            Type::TypeVar(j) => {
                if j < self.links.len() && self.links[j as int] is Some {
                    self.lemma_later_age(self.links[j as int]->0, self.stamps[j as int]);
                    self.lemma_later_in_range(self.links[j as int]->0, self.stamps[j as int]);
                    self.lemma_resolve_flat(self.links[j as int]->0);
                }
            },
            Type::TypeArrow(a, b) => {
                self.lemma_resolve_flat(*a);
                self.lemma_resolve_flat(*b);
            },
        }
    }
}

impl Store {
    /// A type without bound variables stands for itself.
    pub proof fn lemma_flat_resolve(self, t: Type)
        requires
            self.wf(),
            self.flat(t),
        ensures
            self.resolve(t) == t,
        decreases t,
    {
        match t {
            Type::TypeVar(_) => {},
            Type::TypeArrow(a, b) => {
                self.lemma_flat_resolve(*a);
                self.lemma_flat_resolve(*b);
            },
        }
    }

    /// `other` knows all that the store knows: every variable of the store,
    /// and every binding as the store has it.
    pub open spec fn extended_by(self, other: Store) -> bool {
        &&& self.wf()
        &&& other.wf()
        &&& self.links.len() <= other.links.len()
        &&& forall|i: int|
            0 <= i < self.links.len() && (#[trigger] self.links[i]) is Some ==> other.links[i]
                == self.links[i]
    }

    /// A store that knows more resolves further: what a type stood for
    /// before stands, in the later store, for what the type stands for there.
    pub proof fn lemma_extended_resolve(self, other: Store, t: Type)
        requires
            self.extended_by(other),
        ensures
            other.resolve(self.resolve(t)) == other.resolve(t),
        decreases self.max_age(t), t.size(),
    {
        match t {
            Type::TypeVar(j) => {
                if j < self.links.len() && self.links[j as int] is Some {
                    self.lemma_later_age(self.links[j as int]->0, self.stamps[j as int]);
                    self.lemma_extended_resolve(other, self.links[j as int]->0);
                }
            },
            Type::TypeArrow(a, b) => {
                self.lemma_extended_resolve(other, *a);
                self.lemma_extended_resolve(other, *b);
            },
        }
    }

    /// What a store knows, a store with as many variables or more knows.
    pub proof fn lemma_in_range_grows(self, other: Store, t: Type)
        requires
            self.in_range(t),
            self.links.len() <= other.links.len(),
        ensures
            other.in_range(t),
        decreases t,
    {
        match t {
            Type::TypeVar(_) => {},
            Type::TypeArrow(a, b) => {
                self.lemma_in_range_grows(other, *a);
                self.lemma_in_range_grows(other, *b);
            },
        }
    }

    /// Knowing more is transitive.
    pub proof fn lemma_extended_trans(self, mid: Store, other: Store)
        requires
            self.extended_by(mid),
            mid.extended_by(other),
        ensures
            self.extended_by(other),
    {
    }

    /// A store with a variable bound knows more.
    pub proof fn lemma_bind_extends(self, i: int, u: Type)
        requires
            self.wf(),
            0 <= i < self.links.len(),
            self.links[i] is None,
            self.flat(u),
            !u.holds(i as nat),
        ensures
            self.extended_by(self.bind(i, u)),
            forall|j: usize| j == i ==> self.bind(i, u).resolve(#[trigger] Type::var(j)) == u,
    {
        self.lemma_bind_wf(i, u);
        self.lemma_bind_keeps(i, u, u, 0);
        self.bind(i, u).lemma_flat_resolve(u);
        assert forall|j: usize| j == i implies self.bind(i, u).resolve(#[trigger] Type::var(j))
            == u by {
            assert(self.bind(i, u).links[j as int] == Some(u));
        }
    }

    /// A store with one more variable knows more.
    pub proof fn lemma_grow_extends(self)
        requires
            self.wf(),
        ensures
            self.extended_by(self.grow()),
    {
        self.lemma_grow_wf();
    }
}

/// `th2` gives every variable of `th` the type that `th` gives it, and may
/// give types to more.
pub open spec fn extends(th: Seq<Type>, th2: Seq<Type>) -> bool {
    &&& th.len() <= th2.len()
    &&& forall|i: int| 0 <= i < th.len() ==> th2[i] == th[i]
}

/// The typing context with the types of `th` for its type variables.
pub open spec fn apply_ctx(ctx: Seq<(Name, Type)>, th: Seq<Type>) -> Seq<(Name, Type)> {
    Seq::new(ctx.len(), |i: int| (ctx[i].0, ctx[i].1.apply(th)))
}

/// Looking a name up commutes with giving types to the type variables.
pub proof fn lemma_apply_lookup(ctx: Seq<(Name, Type)>, th: Seq<Type>, x: Name)
    ensures
        ctx_lookup(apply_ctx(ctx, th), x) == match ctx_lookup(ctx, x) {
            Some(t) => Some(t.apply(th)),
            None => None,
        },
    decreases ctx.len(),
{
    if ctx.len() > 0 {
        assert(apply_ctx(ctx, th).drop_last() =~= apply_ctx(ctx.drop_last(), th));
        lemma_apply_lookup(ctx.drop_last(), th, x);
    }
}

/// A type that holds a variable is, with types for its variables, at least
/// as large as the type for that variable, and larger if it is a function
/// type.
pub proof fn lemma_holds_size(t: Type, i: nat, th: Seq<Type>)
    requires
        t.holds(i),
        i < th.len(),
    ensures
        t.apply(th).size() >= th[i as int].size(),
        t is TypeArrow ==> t.apply(th).size() > th[i as int].size(),
    decreases t,
{
    match t {
        Type::TypeVar(_) => {},
        Type::TypeArrow(a, b) => {
            if a.holds(i) {
                lemma_holds_size(*a, i, th);
            } else {
                lemma_holds_size(*b, i, th);
            }
        },
    }
}

impl Store {
    /// `th` solves the store: it gives every variable a type, and every bound
    /// variable the type that what it is bound to has under `th`.
    pub open spec fn sat(self, th: Seq<Type>) -> bool {
        &&& th.len() == self.links.len()
        &&& forall|i: int|
            0 <= i < self.links.len() && (#[trigger] self.links[i]) is Some ==> th[i]
                == self.links[i]->0.apply(th)
    }

    /// `th` solves the store and gives the two types the same type.
    pub open spec fn unified_by(self, th: Seq<Type>, t1: Type, t2: Type) -> bool {
        self.sat(th) && t1.apply(th) == t2.apply(th)
    }

    /// `th` solves the store, and under it `d` derives that `t` has the type
    /// `ty0` in the context `ctx`, with the types of `extra` for the
    /// variables that `ctx` holds no type for.
    pub open spec fn solved_by(
        self,
        th: Seq<Type>,
        d: Derivation,
        extra: Seq<(Name, Type)>,
        ctx: Seq<(Name, Type)>,
        t: Term,
        ty0: Type,
    ) -> bool {
        self.sat(th) && derives(d, extra + apply_ctx(ctx, th), t, ty0)
    }

    /// What inference owes to a term that has the type `ty0` once `th` solves
    /// the store: the type found has `ty0` among its instances; a failure is
    /// for a variable that is free in the term and has no type in `ctx`.
    pub open spec fn owes(
        self,
        th: Seq<Type>,
        r: Result<Type, String>,
        ctx: Seq<(Name, Type)>,
        t: Term,
        ty0: Type,
    ) -> bool {
        match r {
            Ok(ty) => self.answers(th, ty, ty0),
            Err(msg) => unbound_failure(msg@, ctx, t),
        }
    }

    /// Some solution of the store that extends `th` gives `ty` the type
    /// `ty0`.
    pub open spec fn answers(self, th: Seq<Type>, ty: Type, ty0: Type) -> bool {
        exists|th2: Seq<Type>| #[trigger] extends(th, th2) && self.sat(th2) && ty.apply(th2) == ty0
    }

    /// Under a solution of the store, a type has the type of what it stands
    /// for.
    pub proof fn lemma_sat_resolve(self, th: Seq<Type>, t: Type)
        requires
            self.wf(),
            self.sat(th),
        ensures
            self.resolve(t).apply(th) == t.apply(th),
        decreases self.max_age(t), t.size(),
    {
        match t {
            Type::TypeVar(j) => {
                if j < self.links.len() && self.links[j as int] is Some {
                    self.lemma_later_age(self.links[j as int]->0, self.stamps[j as int]);
                    self.lemma_sat_resolve(th, self.links[j as int]->0);
                }
            },
            Type::TypeArrow(a, b) => {
                self.lemma_sat_resolve(th, *a);
                self.lemma_sat_resolve(th, *b);
            },
        }
    }

    /// A solution stays one when a variable is bound to a type that has the
    /// variable's type under it.
    pub proof fn lemma_sat_bind(self, i: int, u: Type, th: Seq<Type>)
        requires
            self.sat(th),
            0 <= i < self.links.len(),
            th[i] == u.apply(th),
        ensures
            self.bind(i, u).sat(th),
    {
    }

    /// Types for more variables change nothing for a type whose variables
    /// had types before.
    pub proof fn lemma_apply_extends(self, t: Type, th: Seq<Type>, th2: Seq<Type>)
        requires
            self.in_range(t),
            th.len() == self.links.len(),
            extends(th, th2),
        ensures
            t.apply(th2) == t.apply(th),
        decreases t,
    {
        match t {
            Type::TypeVar(_) => {},
            Type::TypeArrow(a, b) => {
                self.lemma_apply_extends(*a, th, th2);
                self.lemma_apply_extends(*b, th, th2);
            },
        }
    }

    /// A solution, with any type for the new variable, solves the store with
    /// one more variable.
    pub proof fn lemma_sat_grow(self, th: Seq<Type>, ty: Type)
        requires
            self.wf(),
            self.sat(th),
        ensures
            self.grow().sat(th.push(ty)),
            extends(th, th.push(ty)),
    {
        let more = th.push(ty);
        assert forall|i: int|
            0 <= i < self.grow().links.len() && (#[trigger] self.grow().links[i]) is Some implies more[i]
            == self.grow().links[i]->0.apply(more) by {
            assert(self.links[i] is Some);
            self.lemma_later_in_range(self.links[i]->0, self.stamps[i]);
            self.lemma_apply_extends(self.links[i]->0, th, more);
        }
    }

    /// Types for more variables change nothing for a context whose types
    /// are known to the store.
    pub proof fn lemma_apply_ctx_extends(
        self,
        ctx: Seq<(Name, Type)>,
        th: Seq<Type>,
        th2: Seq<Type>,
    )
        requires
            forall|i: int| 0 <= i < ctx.len() ==> self.in_range(#[trigger] ctx[i].1),
            th.len() == self.links.len(),
            extends(th, th2),
        ensures
            apply_ctx(ctx, th2) == apply_ctx(ctx, th),
    {
        assert forall|i: int| 0 <= i < ctx.len() implies ctx[i].1.apply(th2) == ctx[i].1.apply(
            th,
        ) by {
            self.lemma_apply_extends(ctx[i].1, th, th2);
        }
        assert(apply_ctx(ctx, th2) =~= apply_ctx(ctx, th));
    }
}

/// The type under which the typing context `ctx` holds the name `x`: the one
/// that was entered last.
pub open spec fn ctx_lookup(ctx: Seq<(Name, Type)>, x: Name) -> Option<Type>
    decreases ctx.len(),
{
    if ctx.len() == 0 {
        None
    } else if ctx.last().0 == x {
        Some(ctx.last().1)
    } else {
        ctx_lookup(ctx.drop_last(), x)
    }
}

/// A derivation of a typing: for each application in the term, the type of
/// its argument.
pub enum Derivation {
    /// Of a variable.
    Axiom,
    /// Of an abstraction: the derivation for its body.
    Abs(Box<Derivation>),
    /// Of an application: the type of the argument, and the derivations for
    /// the function and for the argument.
    App(Type, Box<Derivation>, Box<Derivation>),
}

/// `d` derives that the term `t` has the simple type `ty` where its free
/// variables have the types that `ctx` gives them: a variable has the type
/// that the context holds for it; an abstraction has a function type, from
/// the type given to its binder to a type of its body; an application has a
/// type that the function yields for an argument of the type that its
/// argument has. Named links count as what they link to and numerals as the
/// abstractions they stand for.
pub open spec fn derives(d: Derivation, ctx: Seq<(Name, Type)>, t: Term, ty: Type) -> bool
    decreases t.weight(),
    via derives_decreases
{
    match t {
        Term::Var(x) => ctx_lookup(ctx, x) == Some(ty),
        Term::Abs(x, b) => match (ty, d) {
            (Type::TypeArrow(from, to), Derivation::Abs(db)) => derives(
                *db,
                ctx.push((x, *from)),
                *b,
                *to,
            ),
            _ => false,
        },
        Term::App(f, a) => match d {
            Derivation::App(ta, df, da) => derives(
                *df,
                ctx,
                *f,
                Type::TypeArrow(Box::new(ta), Box::new(ty)),
            ) && derives(*da, ctx, *a, ta),
            _ => false,
        },
        Term::Named(_, u) => derives(d, ctx, *u, ty),
        Term::Num(n) => derives(d, ctx, church(n), ty),
        Term::Deferred(_, _) => false,
    }
}

#[via_fn]
proof fn derives_decreases(d: Derivation, ctx: Seq<(Name, Type)>, t: Term, ty: Type) {
    if let Term::Num(n) = t {
        lemma_church_weight(n);
    }
}

/// The term `t` has the simple type `ty` where its free variables have the
/// types that `ctx` gives them: there is a derivation of it.
pub open spec fn has_type(ctx: Seq<(Name, Type)>, t: Term, ty: Type) -> bool {
    exists|d: Derivation| derives(d, ctx, t, ty)
}

impl Store {
    /// The typing context with every type replaced by what it stands for.
    pub open spec fn resolve_ctx(self, ctx: Seq<(Name, Type)>) -> Seq<(Name, Type)> {
        Seq::new(ctx.len(), |i: int| (ctx[i].0, self.resolve(ctx[i].1)))
    }

    /// Looking a name up commutes with resolving the context.
    pub proof fn lemma_resolve_lookup(self, ctx: Seq<(Name, Type)>, x: Name)
        ensures
            ctx_lookup(self.resolve_ctx(ctx), x) == match ctx_lookup(ctx, x) {
                Some(t) => Some(self.resolve(t)),
                None => None,
            },
        decreases ctx.len(),
    {
        if ctx.len() > 0 {
            assert(self.resolve_ctx(ctx).drop_last() =~= self.resolve_ctx(ctx.drop_last()));
            self.lemma_resolve_lookup(ctx.drop_last(), x);
        }
    }

    /// In this store, `t` has the type that `ty` stands for where its free
    /// variables have the types that those of `ctx` stand for.
    pub open spec fn judges(self, ctx: Seq<(Name, Type)>, t: Term, ty: Type) -> bool {
        has_type(self.resolve_ctx(ctx), t, self.resolve(ty))
    }

    /// In this store and in every store that knows more, `t` has the type that
    /// `ty` stands for.
    pub open spec fn settles(self, ctx: Seq<(Name, Type)>, t: Term, ty: Type) -> bool {
        forall|later: Store| #[trigger] self.extended_by(later) ==> later.judges(ctx, t, ty)
    }
}

/// The machine that infers types: its type variables, each unbound or bound
/// to a type, and the counters from which new ones get their names and
/// levels.
pub struct TypeMachine {
    gensym_counter: usize,
    current_level: usize,
    cells: Vec<TypeVariable>,
    stamps: Ghost<Seq<nat>>,
    clock: Ghost<nat>,
}

/// The typing context that an environment of the machine denotes.
pub open spec fn ctx_of(env: Seq<(String, Type)>) -> Seq<(Name, Type)> {
    Seq::new(env.len(), |i: int| (env[i].0@, env[i].1))
}

/// Every type of the environment is known to the store.
pub open spec fn env_in_range(store: Store, env: Seq<(String, Type)>) -> bool {
    forall|i: int| 0 <= i < env.len() ==> store.in_range(#[trigger] env[i].1)
}

/// `msg` is what a failed unification says: that a type variable would have
/// to stand for a type that holds it. Two types never fail to unify for
/// their shapes: a type is a variable or a function type, and a variable
/// unifies with either.
pub open spec fn unify_failure(msg: Seq<char>) -> bool {
    exists|n: nat| msg == occurs_message(#[trigger] gensym_name(n))
}

impl Store {
    /// `msg` is what the occurs check says when it fails for a variable of
    /// the store, and that variable is not bound.
    pub open spec fn occurs_failure(self, msg: Seq<char>) -> bool {
        exists|n: nat|
            n < self.links.len() && msg == occurs_message(#[trigger] gensym_name(n))
                && self.links[n as int] is None
    }
}

/// Why no type is inferred for a term.
pub enum Failure {
    /// A variable of this name has no type where it stands.
    Unbound(Name),
    /// The type variable of this number would have to stand for a type that
    /// holds it.
    Occurs(nat),
}

/// What inference says when it fails for the reason `f`.
pub open spec fn failure_message(f: Failure) -> Seq<char> {
    match f {
        Failure::Unbound(x) => unbound_message(x),
        Failure::Occurs(i) => occurs_message(gensym_name(i)),
    }
}

impl Store {
    /// The store that knows no variable.
    pub open spec fn empty() -> Store {
        Store { links: Seq::empty(), stamps: Seq::empty(), clock: 0 }
    }

    /// The type variable that the store makes next.
    pub open spec fn next_var(self) -> Type {
        Type::TypeVar(self.links.len() as usize)
    }

    /// Unification, step by step: the store after the two types have been
    /// made to stand for the same type, and no variable; or the store as far
    /// as it came, and the variable whose occurs check failed. Equal types
    /// are left alone. A bound variable is followed to what it is bound to,
    /// on the left before the right. An unbound variable, the left one
    /// before the right one, is bound to what the other type stands for,
    /// unless it stands in it. Two function types are unified argument with
    /// argument, then result with result.
    pub open spec fn unified(self, t1: Type, t2: Type) -> (Store, Option<nat>)
        decreases self.unbound(), self.deep_size(t1) + self.deep_size(t2),
        when self.wf() && self.in_range(t1) && self.in_range(t2)
        via Self::unified_decreases
    {
        if t1 == t2 {
            (self, None)
        } else if t1 is TypeVar && self.links[t1->TypeVar_0 as int] is Some {
            self.unified(self.links[t1->TypeVar_0 as int]->0, t2)
        } else if t2 is TypeVar && self.links[t2->TypeVar_0 as int] is Some {
            self.unified(t1, self.links[t2->TypeVar_0 as int]->0)
        } else if t1 is TypeVar {
            if self.resolve(t2).holds(t1->TypeVar_0 as nat) {
                (self, Some(t1->TypeVar_0 as nat))
            } else {
                (self.bind(t1->TypeVar_0 as int, self.resolve(t2)), None)
            }
        } else if t2 is TypeVar {
            if self.resolve(t1).holds(t2->TypeVar_0 as nat) {
                (self, Some(t2->TypeVar_0 as nat))
            } else {
                (self.bind(t2->TypeVar_0 as int, self.resolve(t1)), None)
            }
        } else {
            let first = self.unified(*t1->TypeArrow_0, *t2->TypeArrow_0);
            let mid = first.0;
            if first.1 is Some {
                first
            } else if mid.wf() && mid.in_range(*t1->TypeArrow_1) && mid.in_range(
                *t2->TypeArrow_1,
            ) && (mid.unbound() < self.unbound() || mid == self) {
                mid.unified(*t1->TypeArrow_1, *t2->TypeArrow_1)
            } else {
                first
            }
        }
    }

    #[via_fn]
    proof fn unified_decreases(self, t1: Type, t2: Type) {
        if t1 != t2 {
            if t1 is TypeVar && self.links[t1->TypeVar_0 as int] is Some {
            } else if t2 is TypeVar && self.links[t2->TypeVar_0 as int] is Some {
            } else if t1 is TypeVar {
            } else if t2 is TypeVar {
            } else {
                assert(t1 is TypeArrow && t2 is TypeArrow);
            }
        }
    }

    /// Inference, step by step: the store afterwards, and the type that was
    /// found or the reason why none was. Type variables are made in the
    /// order in which the term is gone through: one for the variable of an
    /// abstraction before its body, one for the result of an application
    /// after its two sides. A variable has the type that `ctx` holds for it,
    /// resolved. The first failure ends it.
    pub open spec fn inferred(self, ctx: Seq<(Name, Type)>, t: Term) -> (Store, Result<
        Type,
        Failure,
    >)
        decreases t.weight(),
        via Self::inferred_decreases
    {
        match t {
            Term::Var(x) => match ctx_lookup(ctx, x) {
                Some(stored) => (self, Ok(self.resolve(stored))),
                None => (self, Err(Failure::Unbound(x))),
            },
            Term::Abs(x, e) => {
                let ty_x = self.next_var();
                let body = self.grow().inferred(ctx.push((x, ty_x)), *e);
                match body.1 {
                    Ok(ty_e) => (body.0, Ok(Type::TypeArrow(Box::new(ty_x), Box::new(ty_e)))),
                    Err(f) => (body.0, Err(f)),
                }
            },
            Term::App(e1, e2) => {
                let fun = self.inferred(ctx, *e1);
                match fun.1 {
                    Err(f) => (fun.0, Err(f)),
                    Ok(ty_fun) => {
                        let arg = fun.0.inferred(ctx, *e2);
                        match arg.1 {
                            Err(f) => (arg.0, Err(f)),
                            Ok(ty_arg) => {
                                let ty_res = arg.0.next_var();
                                let met = arg.0.grow().unified(
                                    ty_fun,
                                    Type::TypeArrow(Box::new(ty_arg), Box::new(ty_res)),
                                );
                                match met.1 {
                                    Some(i) => (met.0, Err(Failure::Occurs(i))),
                                    None => (met.0, Ok(ty_res)),
                                }
                            },
                        }
                    },
                }
            },
            Term::Named(_, u) => self.inferred(ctx, *u),
            Term::Num(n) => self.inferred(ctx, church(n)),
            Term::Deferred(_, _) => (self, Err(Failure::Unbound(Seq::empty()))),
        }
    }

    #[via_fn]
    proof fn inferred_decreases(self, ctx: Seq<(Name, Type)>, t: Term) {
        if let Term::Num(n) = t {
            lemma_church_weight(n);
        }
    }
}

/// What inference gives for a term: the type that it finds, with every bound
/// type variable resolved, or what it says of the reason why it finds none.
/// The type variables are numbered in the order in which they were made.
pub open spec fn inferred(t: Term) -> Result<Type, Seq<char>> {
    let found = Store::empty().inferred(Seq::empty(), t);
    match found.1 {
        Ok(ty) => Ok(found.0.resolve(ty)),
        Err(f) => Err(failure_message(f)),
    }
}

/// The term has a simple type once its free variables are given types.
pub open spec fn typable_given(t: Term) -> bool {
    exists|extra: Seq<(Name, Type)>, ty: Type| has_type(extra, t, ty)
}

/// The term has a simple type.
pub open spec fn typable(t: Term) -> bool {
    exists|ty: Type| has_type(Seq::empty(), t, ty)
}

/// `ty0` is `ty` with types for its type variables.
pub open spec fn instance_of(ty0: Type, ty: Type) -> bool {
    exists|th: Seq<Type>| #[trigger] ty.apply(th) == ty0
}

/// `ty` is a principal type of the term: a type of it, of which every type
/// of the term is an instance.
pub open spec fn principal(t: Term, ty: Type) -> bool {
    &&& has_type(Seq::empty(), t, ty)
    &&& forall|ty0: Type| #[trigger] has_type(Seq::empty(), t, ty0) ==> instance_of(ty0, ty)
}

/// `msg` is what a failed inference for `t` under `ctx` says: that a variable
/// which is free in `t` has no type in `ctx`, or what a failed unification
/// says.
pub open spec fn infer_failure(msg: Seq<char>, ctx: Seq<(Name, Type)>, t: Term) -> bool {
    ||| unbound_failure(msg, ctx, t)
    ||| unify_failure(msg)
}

/// `msg` says that a variable which is free in `t` has no type in `ctx`.
pub open spec fn unbound_failure(msg: Seq<char>, ctx: Seq<(Name, Type)>, t: Term) -> bool {
    exists|x: Name| #[trigger]
        t.has_free(x) && msg == unbound_message(x) && ctx_lookup(ctx, x) is None
}

/// A name is looked up in the inner part of a context first, then in the
/// outer part.
pub proof fn lemma_ctx_lookup_concat(outer: Seq<(Name, Type)>, inner: Seq<(Name, Type)>, x: Name)
    ensures
        ctx_lookup(outer + inner, x) == match ctx_lookup(inner, x) {
            Some(t) => Some(t),
            None => ctx_lookup(outer, x),
        },
    decreases inner.len(),
{
    if inner.len() == 0 {
        assert(outer + inner =~= outer);
    } else {
        assert((outer + inner).drop_last() =~= outer + inner.drop_last());
        assert((outer + inner).last() == inner.last());
        lemma_ctx_lookup_concat(outer, inner.drop_last(), x);
    }
}

/// A term has a type only where the context holds a type for each of its
/// free variables.
pub proof fn lemma_derives_closed(d: Derivation, ctx: Seq<(Name, Type)>, t: Term, ty: Type, x: Name)
    requires
        derives(d, ctx, t, ty),
        t.has_free(x),
    ensures
        ctx_lookup(ctx, x) is Some,
    decreases t.weight(),
{
    match t {
        Term::Var(_) => {},
        Term::Abs(w, b) => {
            match (ty, d) {
                (Type::TypeArrow(from, to), Derivation::Abs(db)) => {
                    lemma_derives_closed(*db, ctx.push((w, *from)), *b, *to, x);
                    assert(ctx.push((w, *from)).drop_last() =~= ctx);
                },
                _ => {},
            }
        },
        Term::App(f, a) => {
            match d {
                Derivation::App(ta, df, da) => {
                    if f.has_free(x) {
                        lemma_derives_closed(
                            *df,
                            ctx,
                            *f,
                            Type::TypeArrow(Box::new(ta), Box::new(ty)),
                            x,
                        );
                    } else {
                        lemma_derives_closed(*da, ctx, *a, ta, x);
                    }
                },
                _ => {},
            }
        },
        Term::Named(_, u) => {
            lemma_derives_closed(d, ctx, *u, ty, x);
        },
        Term::Num(n) => {
            lemma_church_closed(n, x);
        },
        Term::Deferred(_, _) => {},
    }
}

/// What inference says of a variable that stands free in the term.
pub open spec fn unbound_message(name: Seq<char>) -> Seq<char> {
    "unable to instantiate "@ + name
}

/// What the occurs check says when it fails for the variable named `name`.
pub open spec fn occurs_message(name: Seq<char>) -> Seq<char> {
    "occurs check failed - "@ + name + " == "@ + name
}

/// The type that the environment holds for `x`: the one entered last.
fn lookup_type(env: &Vec<(String, Type)>, x: &String) -> (r: Option<Type>)
    ensures
        r == ctx_lookup(ctx_of(env@), x@),
{
    let mut i: usize = env.len();
    let ghost all = ctx_of(env@);
    assert(all.subrange(0, i as int) =~= all);
    while i > 0
        invariant
            i <= env.len(),
            all == ctx_of(env@),
            ctx_lookup(all, x@) == ctx_lookup(all.subrange(0, i as int), x@),
        decreases i,
    {
        let ghost part = all.subrange(0, i as int);
        assert(part.drop_last() =~= all.subrange(0, i - 1));
        assert(part.last() == all[i - 1]);
        if env[i - 1].0 == *x {
            return Some(env[i - 1].1.duplicate());
        }
        i -= 1;
    }
    None
}

impl TypeMachine {
    /// What the machine knows of its type variables.
    pub closed spec fn store(&self) -> Store {
        Store {
            links: Seq::new(
                self.cells.len() as nat,
                |i: int|
                    match self.cells[i] {
                        TypeVariable::Link(t) => Some(*t),
                        TypeVariable::Unbound(_, _) => None,
                    },
            ),
            stamps: self.stamps@,
            clock: self.clock@,
        }
    }

    /// The invariant of the machine: its store is well formed, and it has
    /// named as many variables as it holds.
    pub closed spec fn inv(&self) -> bool {
        &&& self.store().wf()
        &&& self.gensym_counter == self.cells.len()
    }

    /// A machine that holds no type variable yet.
    pub fn new() -> (r: Self)
        ensures
            r.inv(),
            r.store() == Store::empty(),
    {
        let r = TypeMachine {
            gensym_counter: 0,
            current_level: 1,
            cells: Vec::new(),
            stamps: Ghost(Seq::empty()),
            clock: Ghost(0),
        };
        assert(r.store().links =~= Store::empty().links);
        r
    }

    /// The name for the next type variable; the counter moves on.
    fn gensym(&mut self) -> (r: String)
        ensures
            r@ == gensym_name(old(self).gensym_counter as nat),
            final(self).gensym_counter == if old(self).gensym_counter < usize::MAX {
                old(self).gensym_counter + 1
            } else {
                old(self).gensym_counter as int
            },
            final(self).cells == old(self).cells,
            final(self).current_level == old(self).current_level,
            final(self).stamps == old(self).stamps,
            final(self).clock == old(self).clock,
    {
        let n = self.gensym_counter;
        if n < usize::MAX {
            self.gensym_counter = n + 1;
        }
        gensym_text(n)
    }

    /// A new type variable, not bound.
    fn newvar(&mut self) -> (r: Type)
        requires
            old(self).inv(),
        ensures
            final(self).inv(),
            final(self).store() == old(self).store().grow(),
            r == Type::TypeVar(old(self).store().links.len() as usize),
            old(self).store().links.len() <= usize::MAX,
            final(self).store().in_range(r),
    {
        let index = self.cells.len();
        let name = self.gensym();
        self.cells.push(TypeVariable::Unbound(name, self.current_level));
        proof {
            self.stamps@ = self.stamps@.push(0);
            assert(self.store().links =~= old(self).store().grow().links);
            old(self).store().lemma_grow_wf();
        }
        Type::TypeVar(index)
    }

    /// The type that `t` stands for.
    fn inst(&self, t: &Type) -> (r: Type)
        requires
            self.inv(),
            self.store().in_range(*t),
        ensures
            r == self.store().resolve(*t),
            self.store().flat(r),
    {
        proof {
            self.store().lemma_resolve_flat(*t);
        }
        self.inst_rec(t)
    }

    fn inst_rec(&self, t: &Type) -> (r: Type)
        requires
            self.inv(),
            self.store().in_range(*t),
        ensures
            r == self.store().resolve(*t),
        decreases self.store().max_age(*t), t.size(),
    {
        match t {
            Type::TypeVar(j) => {
                match &self.cells[*j] {
                    TypeVariable::Link(ty) => {
                        proof {
                            let st = self.store();
                            assert(st.links[*j as int] == Some(**ty));
                            st.lemma_later_age(**ty, st.stamps[*j as int]);
                            st.lemma_later_in_range(**ty, st.stamps[*j as int]);
                        }
                        self.inst_rec(ty)
                    },
                    TypeVariable::Unbound(..) => {
                        proof {
                            assert(self.store().links[*j as int] is None);
                        }
                        t.duplicate()
                    },
                }
            },
            Type::TypeArrow(ty1, ty2) => {
                let r1 = self.inst_rec(ty1);
                let r2 = self.inst_rec(ty2);
                Type::TypeArrow(Box::new(r1), Box::new(r2))
            },
        }
    }

    /// The level that is recorded for the variable `i`: its own while it is
    /// unbound, that of the machine once it is bound.
    pub closed spec fn level(&self, i: int) -> usize {
        match self.cells[i] {
            TypeVariable::Unbound(_, level) => level,
            TypeVariable::Link(_) => self.current_level,
        }
    }

    /// `level`, lowered to `own` if it is above it.
    pub open spec fn lowered(level: usize, own: usize) -> usize {
        if own < level {
            own
        } else {
            level
        }
    }

    /// The level that is recorded for the variable `tv`.
    fn level_of(&self, tv: usize) -> (r: usize)
        requires
            tv < self.cells.len(),
        ensures
            r == self.level(tv as int),
    {
        match &self.cells[tv] {
            TypeVariable::Unbound(_, level) => *level,
            TypeVariable::Link(_) => self.current_level,
        }
    }

    /// The occurs check: fails if the variable `tv` stands in `t`, a type
    /// without bound variables. Every other variable met on the way has its
    /// level lowered to that of `tv` if it was above it.
    fn occurs(&mut self, tv: usize, t: &Type) -> (r: Result<(), String>)
        requires
            old(self).inv(),
            tv < old(self).store().links.len(),
            old(self).store().flat(*t),
        ensures
            final(self).inv(),
            final(self).store() == old(self).store(),
            match r {
                Ok(_) => !t.holds(tv as nat),
                Err(msg) => t.holds(tv as nat) && msg@ == occurs_message(gensym_name(tv as nat)),
            },
            r is Ok ==> forall|j: int|
                0 <= j < old(self).store().links.len() ==> #[trigger] final(self).level(j) == if t.holds(
                    j as nat,
                ) {
                    Self::lowered(old(self).level(j), old(self).level(tv as int))
                } else {
                    old(self).level(j)
                },
        decreases t,
    {
        match t {
            Type::TypeVar(tv2) => {
                if tv == *tv2 {
                    let mut msg = String::from_str("occurs check failed - ");
                    msg.append(gensym_text(tv).as_str());
                    msg.append(" == ");
                    msg.append(gensym_text(*tv2).as_str());
                    Err(msg)
                } else {
                    let own = self.level_of(tv);
                    let lowered = match &self.cells[*tv2] {
                        TypeVariable::Unbound(name, level) => {
                            if own < *level {
                                Some(TypeVariable::Unbound(name.clone(), own))
                            } else {
                                None
                            }
                        },
                        TypeVariable::Link(_) => None,
                    };
                    match lowered {
                        Some(cell) => {
                            proof {
                                assert(old(self).store().links[*tv2 as int] is None);
                            }
                            self.cells.set(*tv2, cell);
                            proof {
                                assert(self.store().links =~= old(self).store().links);
                            }
                        },
                        None => {},
                    }
                    Ok(())
                }
            },
            Type::TypeArrow(t1, t2) => {
                self.occurs(tv, t1)?;
                let ghost mid = *self;
                let r = self.occurs(tv, t2);
                proof {
                    if r is Ok {
                        assert(mid.level(tv as int) == old(self).level(tv as int));
                        assert forall|j: int|
                            0 <= j < old(self).store().links.len() implies #[trigger] self.level(j)
                            == if t.holds(j as nat) {
                            Self::lowered(old(self).level(j), old(self).level(tv as int))
                        } else {
                            old(self).level(j)
                        } by {
                            assert(self.level(j) == if t2.holds(j as nat) {
                                Self::lowered(mid.level(j), mid.level(tv as int))
                            } else {
                                mid.level(j)
                            });
                            assert(mid.level(j) == if t1.holds(j as nat) {
                                Self::lowered(old(self).level(j), old(self).level(tv as int))
                            } else {
                                old(self).level(j)
                            });
                        }
                    }
                }
                r
            },
        }
    }

    /// Binds the unbound variable `tv` to `target`.
    fn bind(&mut self, tv: usize, target: Type)
        requires
            old(self).inv(),
            tv < old(self).store().links.len(),
            old(self).store().links[tv as int] is None,
            old(self).store().flat(target),
            !target.holds(tv as nat),
        ensures
            final(self).inv(),
            final(self).store() == old(self).store().bind(tv as int, target),
    {
        self.cells.set(tv, TypeVariable::Link(Box::new(target)));
        proof {
            self.stamps@ = self.stamps@.update(tv as int, self.clock@);
            self.clock@ = self.clock@ + 1;
            assert(self.store().links =~= old(self).store().bind(tv as int, target).links);
            old(self).store().lemma_bind_wf(tv as int, target);
        }
    }

    /// Makes the two types stand for the same type, by binding unbound
    /// variables: a bound variable is followed to what it is bound to; an
    /// unbound one is bound to what the other type stands for, unless it
    /// stands in it; two function types are unified argument with argument
    /// and result with result.
    fn unify(&mut self, t1: &Type, t2: &Type) -> (r: Result<(), String>)
        requires
            old(self).inv(),
            old(self).store().in_range(*t1),
            old(self).store().in_range(*t2),
        ensures
            final(self).inv(),
            old(self).store().extended_by(final(self).store()),
            final(self).store().links.len() == old(self).store().links.len(),
            r is Ok ==> final(self).store().resolve(*t1) == final(self).store().resolve(*t2),
            r is Ok ==> final(self).store().unbound() < old(self).store().unbound()
                || final(self).store() == old(self).store(),
            r matches Err(msg) ==> unify_failure(msg@) && final(self).store().occurs_failure(msg@),
            final(self).store() == old(self).store().unified(*t1, *t2).0,
            match r {
                Ok(_) => old(self).store().unified(*t1, *t2).1 is None,
                Err(msg) => old(self).store().unified(*t1, *t2).1 is Some && msg@
                    == occurs_message(gensym_name(old(self).store().unified(*t1, *t2).1->0)),
            },
            forall|th: Seq<Type>| #[trigger]
                old(self).store().unified_by(th, *t1, *t2) ==> r is Ok && final(self).store().sat(
                    th,
                ),
        decreases
                old(self).store().unbound(),
                old(self).store().deep_size(*t1) + old(self).store().deep_size(*t2),
    {
        let ghost st = self.store();
        if t1.same(t2) {
            return Ok(());
        }
        if let Type::TypeVar(i) = t1 {
            if let TypeVariable::Link(target) = &self.cells[*i] {
                let target = target.duplicate();
                proof {
                    assert(st.links[*i as int] == Some(target));
                    st.lemma_later_in_range(target, st.stamps[*i as int]);
                }
                let r = self.unify(&target, t2);
                proof {
                    assert(self.store().links[*i as int] == Some(target));
                    assert forall|th: Seq<Type>| #[trigger]
                        st.unified_by(th, *t1, *t2) implies r is Ok && self.store().sat(th) by {
                        assert(st.unified_by(th, target, *t2));
                    }
                }
                return r;
            }
        }
        if let Type::TypeVar(j) = t2 {
            if let TypeVariable::Link(target) = &self.cells[*j] {
                let target = target.duplicate();
                proof {
                    assert(st.links[*j as int] == Some(target));
                    st.lemma_later_in_range(target, st.stamps[*j as int]);
                }
                let r = self.unify(t1, &target);
                proof {
                    assert(self.store().links[*j as int] == Some(target));
                    assert forall|th: Seq<Type>| #[trigger]
                        st.unified_by(th, *t1, *t2) implies r is Ok && self.store().sat(th) by {
                        assert(st.unified_by(th, *t1, target));
                    }
                }
                return r;
            }
        }
        if let Type::TypeVar(i) = t1 {
            proof {
                assert(st.links[*i as int] is None);
            }
            let target = self.inst(t2);
            match self.occurs(*i, &target) {
                Ok(_) => {},
                Err(msg) => {
                    proof {
                        assert(msg@ == occurs_message(gensym_name(*i as nat)));
                        assert(self.store().links[*i as int] is None);
                        assert forall|th: Seq<Type>| #[trigger]
                            st.unified_by(th, *t1, *t2) implies false by {
                            st.lemma_sat_resolve(th, *t2);
                            lemma_holds_size(target, *i as nat, th);
                        }
                    }
                    return Err(msg);
                },
            }
            self.bind(*i, target);
            proof {
                assert forall|th: Seq<Type>| #[trigger]
                    st.unified_by(th, *t1, *t2) implies self.store().sat(th) by {
                    st.lemma_sat_resolve(th, *t2);
                    st.lemma_sat_bind(*i as int, target, th);
                }
                st.lemma_bind_extends(*i as int, target);
                st.lemma_bind_wf(*i as int, target);
                st.lemma_extended_resolve(self.store(), *t2);
                st.lemma_bind_keeps(*i as int, target, target, 0);
                self.store().lemma_flat_resolve(target);
                assert(self.store().resolve(Type::var(*i)) == target);
            }
            return Ok(());
        }
        if let Type::TypeVar(j) = t2 {
            proof {
                assert(st.links[*j as int] is None);
            }
            let target = self.inst(t1);
            match self.occurs(*j, &target) {
                Ok(_) => {},
                Err(msg) => {
                    proof {
                        assert(msg@ == occurs_message(gensym_name(*j as nat)));
                        assert(self.store().links[*j as int] is None);
                        assert forall|th: Seq<Type>| #[trigger]
                            st.unified_by(th, *t1, *t2) implies false by {
                            st.lemma_sat_resolve(th, *t1);
                            lemma_holds_size(target, *j as nat, th);
                        }
                    }
                    return Err(msg);
                },
            }
            self.bind(*j, target);
            proof {
                assert forall|th: Seq<Type>| #[trigger]
                    st.unified_by(th, *t1, *t2) implies self.store().sat(th) by {
                    st.lemma_sat_resolve(th, *t1);
                    st.lemma_sat_bind(*j as int, target, th);
                }
                st.lemma_bind_extends(*j as int, target);
                st.lemma_bind_wf(*j as int, target);
                st.lemma_extended_resolve(self.store(), *t1);
                st.lemma_bind_keeps(*j as int, target, target, 0);
                self.store().lemma_flat_resolve(target);
                assert(self.store().resolve(Type::var(*j)) == target);
            }
            return Ok(());
        }
        if let Type::TypeArrow(tyl1, tyl2) = t1 {
            if let Type::TypeArrow(tyr1, tyr2) = t2 {
                match self.unify(tyl1, tyr1) {
                    Ok(_) => {},
                    Err(msg) => {
                        proof {
                            assert forall|th: Seq<Type>| #[trigger]
                                st.unified_by(th, *t1, *t2) implies false by {
                                assert(st.unified_by(th, **tyl1, **tyr1));
                            }
                        }
                        return Err(msg);
                    },
                }
                let ghost mid = self.store();
                proof {
                    st.lemma_in_range_grows(mid, **tyl2);
                    st.lemma_in_range_grows(mid, **tyr2);
                }
                let r = self.unify(tyl2, tyr2);
                proof {
                    st.lemma_extended_trans(mid, self.store());
                    if r is Ok {
                        mid.lemma_extended_resolve(self.store(), **tyl1);
                        mid.lemma_extended_resolve(self.store(), **tyr1);
                    }
                    assert forall|th: Seq<Type>| #[trigger]
                        st.unified_by(th, *t1, *t2) implies r is Ok && self.store().sat(th) by {
                        assert(st.unified_by(th, **tyl1, **tyr1));
                        assert(mid.unified_by(th, **tyl2, **tyr2));
                    }
                }
                return r;
            }
        }
        proof {
            // a type is a variable or a function type, and every pairing of
            // the two has been dealt with
            assert(false);
        }
        let shown1 = self.inst(t1);
        let shown2 = self.inst(t2);
        let mut msg = String::from_str("unable to unify ");
        msg.append(shown1.to_string().as_str());
        msg.append(" with ");
        msg.append(shown2.to_string().as_str());
        Err(msg)
    }
}

impl TypeMachine {
    /// Infers a type for `lambda`, whose free variables have the types that
    /// `env` holds for them. `env` is left as it was found.
    fn infer(&mut self, env: &mut Vec<(String, Type)>, lambda: &LambdaTree) -> (r: Result<Type, String>)
        requires
            old(self).inv(),
            lambda@.macro_free(),
            env_in_range(old(self).store(), old(env)@),
        ensures
            final(self).inv(),
            old(self).store().extended_by(final(self).store()),
            final(env)@ == old(env)@,
            r matches Ok(ty) ==> final(self).store().in_range(ty) && final(self).store().settles(
                ctx_of(old(env)@),
                lambda@,
                ty,
            ),
            r matches Err(msg) ==> infer_failure(msg@, ctx_of(old(env)@), lambda@),
            final(self).store() == old(self).store().inferred(ctx_of(old(env)@), lambda@).0,
            match r {
                Ok(ty) => old(self).store().inferred(ctx_of(old(env)@), lambda@).1 == Ok::<
                    Type,
                    Failure,
                >(ty),
                Err(msg) => old(self).store().inferred(ctx_of(old(env)@), lambda@).1 is Err
                    && msg@ == failure_message(
                    old(self).store().inferred(ctx_of(old(env)@), lambda@).1->Err_0,
                ),
            },
            forall|th: Seq<Type>, d: Derivation, extra: Seq<(Name, Type)>, ty0: Type| #[trigger]
                old(self).store().solved_by(th, d, extra, ctx_of(old(env)@), lambda@, ty0)
                    ==> final(self).store().owes(th, r, ctx_of(old(env)@), lambda@, ty0),
        decreases lambda@.weight(),
    {
        let ghost st = self.store();
        let ghost ctx = ctx_of(env@);
        match lambda.node() {
            LambdaNode::Variable(x) => {
                match lookup_type(env, x) {
                    Some(stored) => {
                        proof {
                            lemma_lookup_member(ctx, x@);
                        }
                        let ty = self.inst(&stored);
                        proof {
                            assert forall|
                                th: Seq<Type>,
                                d: Derivation,
                                extra: Seq<(Name, Type)>,
                                ty0: Type,
                            | #[trigger]
                                st.solved_by(th, d, extra, ctx, lambda@, ty0) implies st.answers(
                                th,
                                ty,
                                ty0,
                            ) by {
                                lemma_apply_lookup(ctx, th, x@);
                                lemma_ctx_lookup_concat(extra, apply_ctx(ctx, th), x@);
                                st.lemma_sat_resolve(th, stored);
                                assert(extends(th, th) && st.sat(th) && ty.apply(th) == ty0);
                            }
                            st.lemma_flat_in_range(ty);
                            assert forall|later: Store| #[trigger]
                                st.extended_by(later) implies later.judges(ctx, lambda@, ty) by {
                                later.lemma_resolve_lookup(ctx, x@);
                                st.lemma_extended_resolve(later, stored);
                                assert(derives(
                                    Derivation::Axiom,
                                    later.resolve_ctx(ctx),
                                    lambda@,
                                    later.resolve(ty),
                                ));
                            }
                        }
                        Ok(ty)
                    },
                    None => {
                        let mut msg = String::from_str("unable to instantiate ");
                        msg.append(x.as_str());
                        proof {
                            assert(lambda@.has_free(x@) && msg@ == unbound_message(x@));
                            assert(unbound_failure(msg@, ctx, lambda@));
                        }
                        Err(msg)
                    },
                }
            },
            LambdaNode::Abstraction(x, e) => {
                let ty_x = self.newvar();
                let ghost st1 = self.store();
                let ghost before = env@;
                env.push((x.clone(), ty_x.duplicate()));
                let ghost ctx1 = ctx_of(env@);
                proof {
                    st.lemma_grow_extends();
                    assert(ctx1 =~= ctx.push((x@, ty_x)));
                    assert forall|i: int| 0 <= i < env@.len() implies st1.in_range(
                        #[trigger] env@[i].1,
                    ) by {
                        if i < before.len() {
                            st.lemma_in_range_grows(st1, before[i].1);
                        }
                    }
                }
                let body = self.infer(env, e);
                env.pop();
                proof {
                    assert(env@ =~= before);
                    st.lemma_extended_trans(st1, self.store());
                    if body is Err {
                        let msg = body->Err_0@;
                        if !unify_failure(msg) {
                            let y = choose|y: Name| #[trigger]
                                e@.has_free(y) && msg == unbound_message(y) && ctx_lookup(ctx1, y) is None;
                            assert(ctx1.drop_last() =~= ctx);
                            assert(lambda@.has_free(y));
                        }
                    }
                    assert forall|
                        th: Seq<Type>,
                        d: Derivation,
                        extra: Seq<(Name, Type)>,
                        ty0: Type,
                    | #[trigger]
                        st.solved_by(th, d, extra, ctx, lambda@, ty0) implies match body {
                        Ok(ty_e) => self.store().answers(
                            th,
                            Type::TypeArrow(Box::new(ty_x), Box::new(ty_e)),
                            ty0,
                        ),
                        Err(msg) => unbound_failure(msg@, ctx, lambda@),
                    } by {
                        let from = *ty0->TypeArrow_0;
                        let to = *ty0->TypeArrow_1;
                        let db = *d->Abs_0;
                        let th1 = th.push(from);
                        st.lemma_sat_grow(th, from);
                        assert forall|i: int| 0 <= i < ctx.len() implies st.in_range(
                            #[trigger] ctx[i].1,
                        ) by {
                            assert(ctx[i].1 == before[i].1);
                        }
                        st.lemma_apply_ctx_extends(ctx, th, th1);
                        assert(apply_ctx(ctx1, th1) =~= apply_ctx(ctx, th).push((x@, from)));
                        assert(extra + apply_ctx(ctx1, th1) =~= (extra + apply_ctx(ctx, th)).push(
                            (x@, from),
                        ));
                        assert(st1.solved_by(th1, db, extra, ctx1, e@, to));
                        assert(self.store().owes(th1, body, ctx1, e@, to));
                        if body is Ok {
                            let th2 = choose|th2: Seq<Type>| #[trigger]
                                extends(th1, th2) && self.store().sat(th2) && body->Ok_0.apply(
                                    th2,
                                ) == to;
                            let k = th.len() as int;
                            assert(th1[k] == from);
                            assert(th2[k] == th1[k]);
                            assert forall|i: int| 0 <= i < th.len() implies th2[i] == th[i] by {
                                assert(th2[i] == th1[i]);
                            }
                            assert(ty_x.apply(th2) == from);
                            assert(ty0 == Type::TypeArrow(Box::new(from), Box::new(to)));
                            assert(extends(th, th2) && self.store().sat(th2) && Type::TypeArrow(
                                Box::new(ty_x),
                                Box::new(body->Ok_0),
                            ).apply(th2) == ty0);
                        } else {
                            let msg = body->Err_0@;
                            let y = choose|y: Name| #[trigger]
                                e@.has_free(y) && msg == unbound_message(y) && ctx_lookup(ctx1, y) is None;
                            assert(ctx1.drop_last() =~= ctx);
                            assert(lambda@.has_free(y) && ctx_lookup(ctx, y) is None);
                        }
                    }
                }
                let ty_e = body?;
                let ghost st2 = self.store();
                let ty = Type::TypeArrow(Box::new(ty_x), Box::new(ty_e));
                proof {
                    st1.lemma_in_range_grows(st2, ty_x);
                    assert forall|later: Store| #[trigger]
                        st2.extended_by(later) implies later.judges(ctx, lambda@, ty) by {
                        assert(later.judges(ctx1, e@, ty_e));
                        let d = choose|d: Derivation|
                            derives(d, later.resolve_ctx(ctx1), e@, later.resolve(ty_e));
                        assert(later.resolve_ctx(ctx1) =~= later.resolve_ctx(ctx).push(
                            (x@, later.resolve(ty_x)),
                        ));
                        assert(derives(
                            Derivation::Abs(Box::new(d)),
                            later.resolve_ctx(ctx),
                            lambda@,
                            later.resolve(ty),
                        ));
                    }
                }
                Ok(ty)
            },
            LambdaNode::Application(e1, e2) => {
                let fun = self.infer(env, e1);
                proof {
                    if fun is Err {
                        let msg = fun->Err_0@;
                        if !unify_failure(msg) {
                            let y = choose|y: Name| #[trigger]
                                e1@.has_free(y) && msg == unbound_message(y) && ctx_lookup(ctx, y) is None;
                            assert(lambda@.has_free(y));
                        }
                    }
                    assert forall|
                        th: Seq<Type>,
                        d: Derivation,
                        extra: Seq<(Name, Type)>,
                        ty0: Type,
                    | #[trigger]
                        st.solved_by(th, d, extra, ctx, lambda@, ty0) implies match fun {
                        Ok(_) => true,
                        Err(msg) => unbound_failure(msg@, ctx, lambda@),
                    } by {
                        let want = Type::TypeArrow(Box::new(d->App_0), Box::new(ty0));
                        assert(st.solved_by(th, *d->App_1, extra, ctx, e1@, want));
                        assert(self.store().owes(th, fun, ctx, e1@, want));
                        if fun is Err {
                            let msg = fun->Err_0@;
                            let y = choose|y: Name| #[trigger]
                                e1@.has_free(y) && msg == unbound_message(y) && ctx_lookup(ctx, y) is None;
                            assert(lambda@.has_free(y));
                        }
                    }
                }
                let ty_fun = fun?;
                let ghost st1 = self.store();
                proof {
                    assert forall|i: int| 0 <= i < env@.len() implies st1.in_range(
                        #[trigger] env@[i].1,
                    ) by {
                        st.lemma_in_range_grows(st1, env@[i].1);
                    }
                }
                let arg = self.infer(env, e2);
                proof {
                    if arg is Err {
                        let msg = arg->Err_0@;
                        if !unify_failure(msg) {
                            let y = choose|y: Name| #[trigger]
                                e2@.has_free(y) && msg == unbound_message(y) && ctx_lookup(ctx, y) is None;
                            assert(lambda@.has_free(y));
                        }
                    }
                    assert forall|i: int| 0 <= i < ctx.len() implies st.in_range(
                        #[trigger] ctx[i].1,
                    ) by {
                        assert(ctx[i].1 == env@[i].1);
                    }
                    assert forall|
                        th: Seq<Type>,
                        d: Derivation,
                        extra: Seq<(Name, Type)>,
                        ty0: Type,
                    | #[trigger]
                        st.solved_by(th, d, extra, ctx, lambda@, ty0) implies match arg {
                        Ok(ty_a) => exists|th2: Seq<Type>| #[trigger]
                            extends(th, th2) && self.store().sat(th2) && ty_fun.apply(th2)
                                == Type::TypeArrow(Box::new(d->App_0), Box::new(ty0))
                                && ty_a.apply(th2) == d->App_0,
                        Err(msg) => unbound_failure(msg@, ctx, lambda@),
                    } by {
                        let ta = d->App_0;
                        let want = Type::TypeArrow(Box::new(ta), Box::new(ty0));
                        assert(st.solved_by(th, *d->App_1, extra, ctx, e1@, want));
                        assert(st1.owes(th, fun, ctx, e1@, want));
                        let th1 = choose|th1: Seq<Type>| #[trigger]
                            extends(th, th1) && st1.sat(th1) && ty_fun.apply(th1) == want;
                        st.lemma_apply_ctx_extends(ctx, th, th1);
                        assert(st1.solved_by(th1, *d->App_2, extra, ctx, e2@, ta));
                        assert(self.store().owes(th1, arg, ctx, e2@, ta));
                        if arg is Ok {
                            let th2 = choose|th2: Seq<Type>| #[trigger]
                                extends(th1, th2) && self.store().sat(th2) && arg->Ok_0.apply(
                                    th2,
                                ) == ta;
                            st1.lemma_apply_extends(ty_fun, th1, th2);
                            assert(extends(th, th2) && self.store().sat(th2) && ty_fun.apply(th2)
                                == want && arg->Ok_0.apply(th2) == ta);
                        } else {
                            let msg = arg->Err_0@;
                            let y = choose|y: Name| #[trigger]
                                e2@.has_free(y) && msg == unbound_message(y) && ctx_lookup(ctx, y) is None;
                            assert(lambda@.has_free(y));
                        }
                    }
                }
                let ty_arg = arg?;
                let ghost st2 = self.store();
                let ty_res = self.newvar();
                let ghost st3 = self.store();
                let wanted = Type::TypeArrow(
                    Box::new(ty_arg.duplicate()),
                    Box::new(ty_res.duplicate()),
                );
                proof {
                    st2.lemma_grow_extends();
                    st1.lemma_in_range_grows(st3, ty_fun);
                    st2.lemma_in_range_grows(st3, ty_arg);
                }
                let unified = self.unify(&ty_fun, &wanted);
                let ghost st4 = self.store();
                proof {
                    assert forall|
                        th: Seq<Type>,
                        d: Derivation,
                        extra: Seq<(Name, Type)>,
                        ty0: Type,
                    | #[trigger]
                        st.solved_by(th, d, extra, ctx, lambda@, ty0) implies unified is Ok
                        && st4.answers(th, ty_res, ty0) by {
                        let ta = d->App_0;
                        let want = Type::TypeArrow(Box::new(ta), Box::new(ty0));
                        let th2 = choose|th2: Seq<Type>| #[trigger]
                            extends(th, th2) && st2.sat(th2) && ty_fun.apply(th2) == want
                                && ty_arg.apply(th2) == ta;
                        let th3 = th2.push(ty0);
                        st2.lemma_sat_grow(th2, ty0);
                        st1.lemma_in_range_grows(st2, ty_fun);
                        st2.lemma_apply_extends(ty_fun, th2, th3);
                        st2.lemma_apply_extends(ty_arg, th2, th3);
                        assert(st3.unified_by(th3, ty_fun, wanted));
                        assert(extends(th, th3) && st4.sat(th3) && ty_res.apply(th3) == ty0);
                    }
                    st.lemma_extended_trans(st1, st2);
                    st.lemma_extended_trans(st2, st3);
                    st.lemma_extended_trans(st3, st4);
                    st1.lemma_extended_trans(st2, st3);
                    st1.lemma_extended_trans(st3, st4);
                    st2.lemma_extended_trans(st3, st4);
                }
                match unified {
                    Ok(_) => {
                        proof {
                            st3.lemma_in_range_grows(st4, ty_res);
                            assert forall|later: Store| #[trigger]
                                st4.extended_by(later) implies later.judges(ctx, lambda@, ty_res) by {
                                st1.lemma_extended_trans(st4, later);
                                st2.lemma_extended_trans(st4, later);
                                assert(later.judges(ctx, e1@, ty_fun));
                                assert(later.judges(ctx, e2@, ty_arg));
                                let df = choose|d: Derivation|
                                    derives(d, later.resolve_ctx(ctx), e1@, later.resolve(ty_fun));
                                let da = choose|d: Derivation|
                                    derives(d, later.resolve_ctx(ctx), e2@, later.resolve(ty_arg));
                                st4.lemma_extended_resolve(later, ty_fun);
                                st4.lemma_extended_resolve(later, wanted);
                                assert(later.resolve(ty_fun) == Type::TypeArrow(
                                    Box::new(later.resolve(ty_arg)),
                                    Box::new(later.resolve(ty_res)),
                                ));
                                assert(derives(
                                    Derivation::App(
                                        later.resolve(ty_arg),
                                        Box::new(df),
                                        Box::new(da),
                                    ),
                                    later.resolve_ctx(ctx),
                                    lambda@,
                                    later.resolve(ty_res),
                                ));
                            }
                        }
                        Ok(ty_res)
                    },
                    Err(msg) => Err(msg),
                }
            },
            LambdaNode::Named(n) => {
                let inner = n.term();
                let r = self.infer(env, &inner);
                proof {
                    assert forall|
                        th: Seq<Type>,
                        d: Derivation,
                        extra: Seq<(Name, Type)>,
                        ty0: Type,
                    | #[trigger]
                        st.solved_by(th, d, extra, ctx, lambda@, ty0) implies self.store().owes(
                        th,
                        r,
                        ctx,
                        lambda@,
                        ty0,
                    ) by {
                        assert(st.solved_by(th, d, extra, ctx, inner@, ty0));
                        assert(self.store().owes(th, r, ctx, inner@, ty0));
                        if r is Err {
                            let msg = r->Err_0@;
                            let y = choose|y: Name| #[trigger]
                                inner@.has_free(y) && msg == unbound_message(y) && ctx_lookup(ctx, y) is None;
                            assert(lambda@.has_free(y));
                        }
                    }
                    if r is Err {
                        let msg = r->Err_0@;
                        if !unify_failure(msg) {
                            let y = choose|y: Name| #[trigger]
                                inner@.has_free(y) && msg == unbound_message(y) && ctx_lookup(ctx, y) is None;
                            assert(lambda@.has_free(y));
                        }
                    }
                    if r is Ok {
                        let ty = r->Ok_0;
                        assert forall|later: Store| #[trigger]
                            self.store().extended_by(later) implies later.judges(
                            ctx,
                            lambda@,
                            ty,
                        ) by {
                            assert(later.judges(ctx, inner@, ty));
                            let d = choose|d: Derivation|
                                derives(d, later.resolve_ctx(ctx), inner@, later.resolve(ty));
                            assert(derives(d, later.resolve_ctx(ctx), lambda@, later.resolve(ty)));
                        }
                    }
                }
                r
            },
            LambdaNode::ChurchNum(n) => {
                proof {
                    lemma_church_weight(*n as nat);
                    lemma_church_plain(*n as nat);
                }
                let expanded = LambdaTree::unwrap_church_num(*n);
                let r = self.infer(env, &expanded);
                proof {
                    assert forall|
                        th: Seq<Type>,
                        d: Derivation,
                        extra: Seq<(Name, Type)>,
                        ty0: Type,
                    | #[trigger]
                        st.solved_by(th, d, extra, ctx, lambda@, ty0) implies self.store().owes(
                        th,
                        r,
                        ctx,
                        lambda@,
                        ty0,
                    ) by {
                        assert(st.solved_by(th, d, extra, ctx, expanded@, ty0));
                        assert(self.store().owes(th, r, ctx, expanded@, ty0));
                        if r is Err {
                            let msg = r->Err_0@;
                            let y = choose|y: Name| #[trigger]
                                expanded@.has_free(y) && msg == unbound_message(y) && ctx_lookup(ctx, y) is None;
                            lemma_church_closed(*n as nat, y);
                        }
                    }
                    if r is Err {
                        let msg = r->Err_0@;
                        if !unify_failure(msg) {
                            let y = choose|y: Name| #[trigger]
                                expanded@.has_free(y) && msg == unbound_message(y) && ctx_lookup(ctx, y) is None;
                            lemma_church_closed(*n as nat, y);
                        }
                    }
                    if r is Ok {
                        let ty = r->Ok_0;
                        assert forall|later: Store| #[trigger]
                            self.store().extended_by(later) implies later.judges(
                            ctx,
                            lambda@,
                            ty,
                        ) by {
                            assert(later.judges(ctx, expanded@, ty));
                            let d = choose|d: Derivation|
                                derives(d, later.resolve_ctx(ctx), expanded@, later.resolve(ty));
                            assert(derives(d, later.resolve_ctx(ctx), lambda@, later.resolve(ty)));
                        }
                    }
                }
                r
            },
            LambdaNode::Macro(_, _) => {
                proof {
                    assert(false);
                }
                Err(String::new())
            },
        }
    }
}

/// What the context holds for a name stands in the context.
pub proof fn lemma_lookup_member(ctx: Seq<(Name, Type)>, x: Name)
    requires
        ctx_lookup(ctx, x) is Some,
    ensures
        exists|i: int| 0 <= i < ctx.len() && (#[trigger] ctx[i]).1 == ctx_lookup(ctx, x)->0,
    decreases ctx.len(),
{
    if ctx.last().0 == x {
        assert(ctx[ctx.len() - 1].1 == ctx_lookup(ctx, x)->0);
    } else {
        lemma_lookup_member(ctx.drop_last(), x);
        let i = choose|i: int|
            0 <= i < ctx.drop_last().len() && (#[trigger] ctx.drop_last()[i]).1 == ctx_lookup(
                ctx.drop_last(),
                x,
            )->0;
        assert(ctx[i] == ctx.drop_last()[i]);
    }
}

impl Store {
    /// A type without bound variables holds only variables that the store
    /// knows.
    pub proof fn lemma_flat_in_range(self, t: Type)
        requires
            self.flat(t),
        ensures
            self.in_range(t),
        decreases t,
    {
        match t {
            Type::TypeVar(_) => {},
            Type::TypeArrow(a, b) => {
                self.lemma_flat_in_range(*a);
                self.lemma_flat_in_range(*b);
            },
        }
    }
}

/// Infers a simple type for `lambda`. It succeeds exactly where the term has
/// a simple type, and the type that it returns is then a principal type of
/// the term: the term has it by the rules of simple typing, and every type
/// that the term has is the returned type with types put for its type
/// variables. An error says why the term has no type: a variable stands
/// free in it, or a type variable would have to stand for a type that holds
/// it.
pub fn infer(lambda: &LambdaTree) -> (r: Result<Type, String>)
    requires
        lambda@.macro_free(),
    ensures
        match r {
            Ok(ty) => inferred(lambda@) == Ok::<Type, Seq<char>>(ty),
            Err(msg) => inferred(lambda@) == Err::<Type, Seq<char>>(msg@),
        },
        r is Ok <==> typable(lambda@),
        r matches Ok(ty) ==> principal(lambda@, ty),
        r matches Err(msg) ==> infer_failure(msg@, Seq::empty(), lambda@),
        r matches Err(msg) ==> (typable_given(lambda@) ==> unbound_failure(
            msg@,
            Seq::empty(),
            lambda@,
        )),
{
    let mut machine = TypeMachine::new();
    let ghost start = machine.store();
    let mut env: Vec<(String, Type)> = Vec::new();
    let ghost none = Seq::<Type>::empty();
    proof {
        assert(ctx_of(env@) =~= Seq::empty());
        assert(apply_ctx(ctx_of(env@), none) =~= Seq::empty());
        assert(start.sat(none));
    }
    let found = machine.infer(&mut env, lambda);
    proof {
        assert forall|ty0: Type| #[trigger]
            has_type(Seq::empty(), lambda@, ty0) implies found is Ok && machine.store().answers(
            none,
            found->Ok_0,
            ty0,
        ) by {
            let d = choose|d: Derivation| derives(d, Seq::empty(), lambda@, ty0);
            assert(Seq::<(Name, Type)>::empty() + apply_ctx(ctx_of(env@), none) =~= Seq::empty());
            assert(start.solved_by(none, d, Seq::empty(), ctx_of(env@), lambda@, ty0));
            assert(machine.store().owes(none, found, ctx_of(env@), lambda@, ty0));
            if found is Err {
                let msg = found->Err_0@;
                let y = choose|y: Name| #[trigger]
                    lambda@.has_free(y) && msg == unbound_message(y) && ctx_lookup(
                        ctx_of(env@),
                        y,
                    ) is None;
                lemma_derives_closed(d, Seq::empty(), lambda@, ty0, y);
            }
        }
        if found is Err && typable_given(lambda@) {
            let (extra, ty0) = choose|extra: Seq<(Name, Type)>, ty0: Type|
                has_type(extra, lambda@, ty0);
            let d = choose|d: Derivation| derives(d, extra, lambda@, ty0);
            assert(extra + apply_ctx(ctx_of(env@), none) =~= extra);
            assert(start.solved_by(none, d, extra, ctx_of(env@), lambda@, ty0));
            assert(machine.store().owes(none, found, ctx_of(env@), lambda@, ty0));
        }
    }
    match found {
        Ok(ty) => {
            let resolved = machine.inst(&ty);
            proof {
                let st = machine.store();
                assert(st.extended_by(st));
                assert(st.judges(ctx_of(env@), lambda@, ty));
                assert(st.resolve_ctx(ctx_of(env@)) =~= Seq::empty());
                assert forall|ty0: Type| #[trigger]
                    has_type(Seq::empty(), lambda@, ty0) implies instance_of(ty0, resolved) by {
                    let th = choose|th: Seq<Type>| #[trigger]
                        extends(none, th) && st.sat(th) && ty.apply(th) == ty0;
                    st.lemma_sat_resolve(th, ty);
                    assert(resolved.apply(th) == ty0);
                }
            }
            Ok(resolved)
        },
        Err(msg) => {
            proof {
                assert(ctx_of(env@) =~= Seq::empty());
            }
            Err(msg)
        },
    }
}

} // verus!
