use vstd::prelude::*;
use crate::macros::Macro;
use crate::text::{decimal, Name};

verus! {

/// The mathematical model of a lambda term: what a `LambdaTree` denotes.
pub enum Term {
    /// A reference to a binder by name.
    Var(Name),
    /// `\name . body`
    Abs(Name, Box<Term>),
    /// Juxtaposition: function, then argument.
    App(Box<Term>, Box<Term>),
    /// A link to a stored term, with the name under which it is stored.
    Named(Name, Box<Term>),
    /// A numeral literal.
    Num(nat),
    /// An invocation of a macro that has not been carried out.
    Deferred(Macro, Seq<Term>),
}

/// The name of the outer binder of an expanded numeral.
pub open spec fn name_f() -> Name {
    seq!['f']
}

/// The name of the inner binder of an expanded numeral.
pub open spec fn name_x() -> Name {
    seq!['x']
}

/// `f` applied `n` times to `x`.
pub open spec fn church_body(n: nat) -> Term
    decreases n,
{
    if n == 0 {
        Term::Var(name_x())
    } else {
        Term::App(Box::new(Term::Var(name_f())), Box::new(church_body((n - 1) as nat)))
    }
}

/// The body of a numeral weighs less than the numeral.
pub proof fn lemma_church_weight(n: nat)
    ensures
        church_body(n).weight() == 2 * n + 1,
        church(n).weight() == 2 * n + 3,
    decreases n,
{
    reveal_with_fuel(Term::weight, 4);
    if n > 0 {
        lemma_church_weight((n - 1) as nat);
    }
}

/// An expanded numeral holds no macro invocation and no named link.
pub proof fn lemma_church_plain(n: nat)
    ensures
        church_body(n).macro_free(),
        church(n).macro_free(),
        church_body(n).named_closed(),
        church(n).named_closed(),
    decreases n,
{
    reveal_with_fuel(Term::macro_free, 4);
    reveal_with_fuel(Term::named_closed, 4);
    if n > 0 {
        lemma_church_plain((n - 1) as nat);
    }
}

/// The abstraction that the numeral `n` stands for: `\f . \x . f (... (f x))`.
pub open spec fn church(n: nat) -> Term {
    Term::Abs(name_f(), Box::new(Term::Abs(name_x(), Box::new(church_body(n)))))
}

/// Linking keeps a term without macro invocations one.
pub proof fn lemma_link_invocation_free(t: Term, reg: Seq<(Name, Term)>, bound: Seq<Name>)
    requires
        t.invocation_free(),
    ensures
        t.link(reg, bound).invocation_free(),
    decreases t,
{
    match t {
        Term::Abs(x, b) => {
            lemma_link_invocation_free(*b, reg, bound.push(x));
        },
        Term::App(l, r) => {
            lemma_link_invocation_free(*l, reg, bound);
            lemma_link_invocation_free(*r, reg, bound);
        },
        _ => {},
    }
}

/// The term that the registry `reg` stores under `name`: that of the first
/// entry of that name.
pub open spec fn registry_find(reg: Seq<(Name, Term)>, name: Name) -> Option<Term>
    decreases reg.len(),
{
    if reg.len() == 0 {
        None
    } else if reg.first().0 == name {
        Some(reg.first().1)
    } else {
        registry_find(reg.drop_first(), name)
    }
}

impl Term {
    /// The term with a link to the stored term in place of every variable
    /// that the registry `reg` has a term for, unless a binder of the term, or
    /// one of `bound`, binds the variable.
    pub open spec fn link(self, reg: Seq<(Name, Term)>, bound: Seq<Name>) -> Term
        decreases self,
    {
        match self {
            Term::Var(name) => if bound.contains(name) {
                self
            } else {
                match registry_find(reg, name) {
                    Some(t) => Term::Named(name, Box::new(t)),
                    None => self,
                }
            },
            Term::Abs(x, b) => Term::Abs(x, Box::new(b.link(reg, bound.push(x)))),
            Term::App(l, r) => Term::App(
                Box::new(l.link(reg, bound)),
                Box::new(r.link(reg, bound)),
            ),
            Term::Named(_, _) => self,
            Term::Num(_) => self,
            Term::Deferred(m, args) => Term::Deferred(
                m,
                Seq::new(
                    args.len(),
                    |i: int| if 0 <= i < args.len() { args[i].link(reg, bound) } else { self },
                ),
            ),
        }
    }

    /// The number of nodes, numerals and named links counted as they stand.
    pub open spec fn size(self) -> nat
        decreases self, 0nat,
    {
        match self {
            Term::Var(_) => 1,
            Term::Abs(_, b) => 1 + b.size(),
            Term::App(l, r) => 1 + l.size() + r.size(),
            Term::Named(_, t) => 1 + t.size(),
            Term::Num(_) => 1,
            Term::Deferred(_, args) => 1 + Self::size_sum(args, args.len()),
        }
    }

    /// The sizes of the first `n` terms of `ts`, added up.
    pub open spec fn size_sum(ts: Seq<Term>, n: nat) -> nat
        decreases ts, n,
    {
        if n == 0 || n > ts.len() {
            0
        } else {
            Self::size_sum(ts, (n - 1) as nat) + ts[n - 1].size()
        }
    }

    /// A measure under which a numeral is larger than the abstraction it
    /// stands for, and every other term larger than its parts.
    pub open spec fn weight(self) -> nat
        decreases self, 0nat,
    {
        match self {
            Term::Var(_) => 1,
            Term::Abs(_, b) => 1 + b.weight(),
            Term::App(l, r) => 1 + l.weight() + r.weight(),
            Term::Named(_, t) => 1 + t.weight(),
            Term::Num(n) => 2 * n + 4,
            Term::Deferred(_, args) => 1 + Self::weight_sum(args, args.len()),
        }
    }

    /// The weights of the first `n` terms of `ts`, added up.
    pub open spec fn weight_sum(ts: Seq<Term>, n: nat) -> nat
        decreases ts, n,
    {
        if n == 0 || n > ts.len() {
            0
        } else {
            Self::weight_sum(ts, (n - 1) as nat) + ts[n - 1].weight()
        }
    }

    /// A bound on the length of every name that stands in the term.
    pub open spec fn len_bound(self) -> nat
        decreases self, 0nat,
    {
        match self {
            Term::Var(x) => x.len(),
            Term::Abs(x, b) => x.len() + b.len_bound(),
            Term::App(l, r) => l.len_bound() + r.len_bound(),
            Term::Named(_, t) => t.len_bound(),
            Term::Num(_) => 0,
            Term::Deferred(_, args) => Self::len_bound_sum(args, args.len()),
        }
    }

    /// The bounds of the first `n` terms of `ts`, added up.
    pub open spec fn len_bound_sum(ts: Seq<Term>, n: nat) -> nat
        decreases ts, n,
    {
        if n == 0 || n > ts.len() {
            0
        } else {
            Self::len_bound_sum(ts, (n - 1) as nat) + ts[n - 1].len_bound()
        }
    }

    /// `n` occurs free, named links looked through.
    pub open spec fn has_free(self, n: Name) -> bool
        decreases self,
    {
        match self {
            Term::Var(x) => x == n,
            Term::Abs(x, b) => x != n && b.has_free(n),
            Term::App(l, r) => l.has_free(n) || r.has_free(n),
            Term::Named(_, t) => t.has_free(n),
            Term::Num(_) => false,
            Term::Deferred(_, args) => exists|i: int|
                0 <= i < args.len() && (#[trigger] args[i]).has_free(n),
        }
    }

    /// Some abstraction in the term binds `n`, named links looked through.
    pub open spec fn has_binder(self, n: Name) -> bool
        decreases self,
    {
        match self {
            Term::Var(_) => false,
            Term::Abs(x, b) => x == n || b.has_binder(n),
            Term::App(l, r) => l.has_binder(n) || r.has_binder(n),
            Term::Named(_, t) => t.has_binder(n),
            Term::Num(_) => false,
            Term::Deferred(_, args) => exists|i: int|
                0 <= i < args.len() && (#[trigger] args[i]).has_binder(n),
        }
    }

    /// Whether the term is written in parentheses where it stands: to the left
    /// of an application if `left_of_appl`, elsewhere in one if not.
    pub open spec fn needs_paren(self, left_of_appl: bool) -> bool {
        !(self is Named || self is Var || self is Num || (left_of_appl && self is App))
    }

    /// The term as it is written: `\x . body` for an abstraction, function and
    /// argument side by side for an application, a numeral as `$` and its
    /// digits, a named link as its name, a macro invocation as `!`, its name
    /// and its arguments.
    pub open spec fn show(self) -> Seq<char>
        decreases self, 0nat,
    {
        match self {
            Term::Var(n) => n,
            Term::Abs(x, b) => seq!['\\'] + x + seq![' ', '.', ' '] + b.show(),
            Term::App(l, r) => l.show_paren(true) + seq![' '] + r.show_paren(false),
            Term::Named(name, _) => name,
            Term::Num(d) => seq!['$'] + decimal(d),
            Term::Deferred(m, args) => seq!['!'] + m.spec_name() + seq![' '] + Self::show_args(
                args,
                args.len(),
            ),
        }
    }

    /// The term as it is written where parentheses may be needed around it.
    pub open spec fn show_paren(self, left_of_appl: bool) -> Seq<char>
        decreases self, 1nat,
    {
        if self.needs_paren(left_of_appl) {
            seq!['('] + self.show() + seq![')']
        } else {
            self.show()
        }
    }

    /// The term as it is written among the arguments of a macro: a variable
    /// bare, anything else in parentheses.
    pub open spec fn show_arg(self) -> Seq<char>
        decreases self, 1nat,
    {
        match self {
            Term::Var(n) => n,
            _ => seq!['('] + self.show() + seq![')'],
        }
    }

    /// The first `n` arguments of a macro as they are written, one after the
    /// other.
    pub open spec fn show_args(ts: Seq<Term>, n: nat) -> Seq<char>
        decreases ts, n,
    {
        if n == 0 || n > ts.len() {
            Seq::empty()
        } else {
            Self::show_args(ts, (n - 1) as nat) + ts[n - 1].show_arg()
        }
    }

    /// `n` stands somewhere in the term, as a variable or as a binder.
    pub open spec fn mentions(self, n: Name) -> bool {
        self.has_free(n) || self.has_binder(n)
    }

    /// The set of the names that occur free.
    pub open spec fn free_vars(self) -> Set<Name> {
        Set::new(|n: Name| self.has_free(n))
    }

    /// The set of the names that some abstraction binds.
    pub open spec fn bound_vars(self) -> Set<Name> {
        Set::new(|n: Name| self.has_binder(n))
    }

    /// No invocation of a macro is left in the term.
    pub open spec fn macro_free(self) -> bool
        decreases self,
    {
        match self {
            Term::Var(_) => true,
            Term::Abs(_, b) => b.macro_free(),
            Term::App(l, r) => l.macro_free() && r.macro_free(),
            Term::Named(_, t) => t.macro_free(),
            Term::Num(_) => true,
            Term::Deferred(_, _) => false,
        }
    }

    /// No macro invocation stands in the term outside what it links to.
    pub open spec fn invocation_free(self) -> bool
        decreases self,
    {
        match self {
            Term::Var(_) => true,
            Term::Abs(_, b) => b.invocation_free(),
            Term::App(l, r) => l.invocation_free() && r.invocation_free(),
            Term::Named(_, _) => true,
            Term::Num(_) => true,
            Term::Deferred(_, _) => false,
        }
    }

    /// Every stored term that the term links to has no free variable.
    pub open spec fn named_closed(self) -> bool
        decreases self,
    {
        match self {
            Term::Var(_) => true,
            Term::Abs(_, b) => b.named_closed(),
            Term::App(l, r) => l.named_closed() && r.named_closed(),
            Term::Named(_, t) => t.named_closed() && forall|n: Name| !t.has_free(n),
            Term::Num(_) => true,
            Term::Deferred(_, args) => forall|i: int|
                0 <= i < args.len() ==> (#[trigger] args[i]).named_closed(),
        }
    }

    /// A numeral literal stands somewhere in the term.
    pub open spec fn has_nums(self) -> bool
        decreases self,
    {
        match self {
            Term::Var(_) => false,
            Term::Abs(_, b) => b.has_nums(),
            Term::App(l, r) => l.has_nums() || r.has_nums(),
            Term::Named(_, t) => t.has_nums(),
            Term::Num(_) => true,
            Term::Deferred(_, args) => exists|i: int|
                0 <= i < args.len() && (#[trigger] args[i]).has_nums(),
        }
    }

    /// The term with every named link replaced by what it links to and every
    /// numeral by the abstraction it stands for.
    pub open spec fn resolve(self) -> Term
        decreases self,
    {
        match self {
            Term::Var(_) => self,
            Term::Abs(x, b) => Term::Abs(x, Box::new(b.resolve())),
            Term::App(l, r) => Term::App(Box::new(l.resolve()), Box::new(r.resolve())),
            Term::Named(_, t) => t.resolve(),
            Term::Num(n) => church(n),
            Term::Deferred(m, args) => Term::Deferred(
                m,
                Seq::new(args.len(), |i: int| if 0 <= i < args.len() { args[i].resolve() } else { self }),
            ),
        }
    }

    /// The number of free occurrences of `x` outside numerals and named links:
    /// the occurrences that a substitution for `x` replaces.
    pub open spec fn free_count(self, x: Name) -> nat
        decreases self, 0nat,
    {
        match self {
            Term::Var(y) => if y == x { 1 } else { 0 },
            Term::Abs(y, b) => if y == x { 0 } else { b.free_count(x) },
            Term::App(l, r) => l.free_count(x) + r.free_count(x),
            Term::Named(_, _) => 0,
            Term::Num(_) => 0,
            Term::Deferred(_, args) => Self::free_count_sum(args, args.len(), x),
        }
    }

    /// The free occurrences of `x` in the first `n` terms of `ts`, added up.
    pub open spec fn free_count_sum(ts: Seq<Term>, n: nat, x: Name) -> nat
        decreases ts, n,
    {
        if n == 0 || n > ts.len() {
            0
        } else {
            Self::free_count_sum(ts, (n - 1) as nat, x) + ts[n - 1].free_count(x)
        }
    }

    /// Free occurrences of `y` outside numerals and named links renamed to `z`,
    /// with no regard to capture.
    pub open spec fn replace_free(self, y: Name, z: Name) -> Term
        decreases self,
    {
        match self {
            Term::Var(x) => if x == y { Term::Var(z) } else { self },
            Term::Abs(x, b) => if x == y {
                self
            } else {
                Term::Abs(x, Box::new(b.replace_free(y, z)))
            },
            Term::App(l, r) => Term::App(
                Box::new(l.replace_free(y, z)),
                Box::new(r.replace_free(y, z)),
            ),
            Term::Named(_, _) => self,
            Term::Num(_) => self,
            Term::Deferred(m, args) => Term::Deferred(
                m,
                Seq::new(
                    args.len(),
                    |i: int| if 0 <= i < args.len() { args[i].replace_free(y, z) } else { self },
                ),
            ),
        }
    }

    /// `cand` may not name the binder of `body` once `r` has been put into it
    /// for `x`: it is `x`, or it is free in `r`, or it stands in `body` already.
    pub open spec fn rotten(cand: Name, body: Term, x: Name, r: Term) -> bool {
        cand == x || r.has_free(cand) || body.mentions(cand)
    }

    /// `cand` with as many primes appended as it takes to be no longer rotten.
    pub open spec fn fresh_from(cand: Name, body: Term, x: Name, r: Term) -> Name
        decreases body.len_bound() + r.len_bound() + x.len() + 1 - cand.len(),
        via Self::fresh_from_decreases
    {
        if Self::rotten(cand, body, x, r) {
            Self::fresh_from(cand.push('\''), body, x, r)
        } else {
            cand
        }
    }

    #[via_fn]
    proof fn fresh_from_decreases(cand: Name, body: Term, x: Name, r: Term) {
        if r.has_free(cand) {
            r.lemma_len_bound(cand);
        }
        if body.mentions(cand) {
            body.lemma_len_bound(cand);
        }
    }

    /// `y` with one prime appended.
    pub open spec fn primed(y: Name) -> Name {
        y.push('\'')
    }

    /// `y` with the numeral of `n` appended.
    pub open spec fn numbered(y: Name, n: nat) -> Name {
        y + decimal(n)
    }

    /// The first of `y` with `n`, `n + 1`, ... appended that is not rotten, as
    /// far as a `usize` counts.
    pub open spec fn first_numbered(y: Name, n: nat, body: Term, x: Name, r: Term) -> Option<Name>
        decreases usize::MAX - n,
    {
        if n > usize::MAX {
            None
        } else if !Self::rotten(Self::numbered(y, n), body, x, r) {
            Some(Self::numbered(y, n))
        } else if n == usize::MAX {
            None
        } else {
            Self::first_numbered(y, n + 1, body, x, r)
        }
    }

    /// The name that replaces the binder `y` of `body` when `r` is put into
    /// `body` for `x`: `y` with one, two or three primes, the fewest with which
    /// it is not rotten; where all three are rotten, `y` with the least number
    /// appended with which it is not; and where no number that a `usize` holds
    /// will do, `y` with the fewest primes with which it is not rotten.
    pub open spec fn fresh(y: Name, body: Term, x: Name, r: Term) -> Name {
        let one = Self::primed(y);
        let two = Self::primed(one);
        let three = Self::primed(two);
        if !Self::rotten(one, body, x, r) {
            one
        } else if !Self::rotten(two, body, x, r) {
            two
        } else if !Self::rotten(three, body, x, r) {
            three
        } else {
            match Self::first_numbered(y, 0, body, x, r) {
                Some(z) => z,
                None => Self::fresh_from(Self::primed(three), body, x, r),
            }
        }
    }

    /// Capture-avoiding substitution: the term with `r` in place of every free
    /// occurrence of `x` outside numerals and named links.
    pub open spec fn subst(self, x: Name, r: Term) -> Term
        decreases self.size(),
        via Self::subst_decreases
    {
        match self {
            Term::Var(y) => if y == x { r } else { self },
            Term::Abs(y, b) => if y == x {
                self
            } else if r.has_free(y) {
                let z = Self::fresh(y, *b, x, r);
                Term::Abs(z, Box::new(b.replace_free(y, z).subst(x, r)))
            } else {
                Term::Abs(y, Box::new(b.subst(x, r)))
            },
            Term::App(l, a) => Term::App(Box::new(l.subst(x, r)), Box::new(a.subst(x, r))),
            Term::Named(_, _) => self,
            Term::Num(_) => self,
            Term::Deferred(m, args) => Term::Deferred(
                m,
                Seq::new(
                    args.len(),
                    |i: int| if 0 <= i < args.len() { args[i].subst(x, r) } else { self },
                ),
            ),
        }
    }

    #[via_fn]
    proof fn subst_decreases(self, x: Name, r: Term) {
        match self {
            Term::Abs(y, b) => {
                if y != x && r.has_free(y) {
                    b.lemma_replace_free_size(y, Self::fresh(y, *b, x, r));
                }
            },
            Term::Deferred(m, args) => {
                assert forall|i: int| 0 <= i < args.len() implies (#[trigger] args[i]).size()
                    < self.size() by {
                    self.lemma_arg_size(i);
                }
            },
            _ => {},
        }
    }

    /// The search for a fresh name ends on a name that is not rotten.
    pub proof fn lemma_fresh_from_not_rotten(cand: Name, body: Term, x: Name, r: Term)
        ensures
            !Self::rotten(Self::fresh_from(cand, body, x, r), body, x, r),
        decreases body.len_bound() + r.len_bound() + x.len() + 1 - cand.len(),
    {
        if Self::rotten(cand, body, x, r) {
            if r.has_free(cand) {
                r.lemma_len_bound(cand);
            }
            if body.mentions(cand) {
                body.lemma_len_bound(cand);
            }
            Self::lemma_fresh_from_not_rotten(cand.push('\''), body, x, r);
        }
    }

    /// The search among the numbered names ends on a name that is not rotten,
    /// if it ends on one.
    pub proof fn lemma_first_numbered_not_rotten(y: Name, n: nat, body: Term, x: Name, r: Term)
        ensures
            Self::first_numbered(y, n, body, x, r) matches Some(z) ==> !Self::rotten(z, body, x, r),
        decreases usize::MAX - n,
    {
        if n < usize::MAX && Self::rotten(Self::numbered(y, n), body, x, r) {
            Self::lemma_first_numbered_not_rotten(y, n + 1, body, x, r);
        }
    }

    /// The fresh name is not rotten.
    pub proof fn lemma_fresh_not_rotten(y: Name, body: Term, x: Name, r: Term)
        ensures
            !Self::rotten(Self::fresh(y, body, x, r), body, x, r),
    {
        let three = Self::primed(Self::primed(Self::primed(y)));
        Self::lemma_first_numbered_not_rotten(y, 0, body, x, r);
        Self::lemma_fresh_from_not_rotten(Self::primed(three), body, x, r);
    }

    /// Renaming `y` to a name other than `x` keeps the free occurrences of `x`,
    /// where `x` is not `y`.
    pub proof fn lemma_replace_free_count(self, y: Name, z: Name, x: Name)
        requires
            x != y,
            x != z,
        ensures
            self.replace_free(y, z).free_count(x) == self.free_count(x),
        decreases self,
    {
        match self {
            Term::Var(_) => {},
            Term::Abs(w, b) => {
                if w != y {
                    b.lemma_replace_free_count(y, z, x);
                }
            },
            Term::App(l, r) => {
                l.lemma_replace_free_count(y, z, x);
                r.lemma_replace_free_count(y, z, x);
            },
            Term::Named(_, _) => {},
            Term::Num(_) => {},
            Term::Deferred(m, args) => {
                let out = self.replace_free(y, z)->Deferred_1;
                assert forall|i: int| 0 <= i < args.len() implies (#[trigger] out[i]).free_count(x)
                    == args[i].free_count(x) by {
                    args[i].lemma_replace_free_count(y, z, x);
                }
                Self::lemma_free_count_sum_equal(out, args, args.len(), x);
            },
        }
    }

    /// Sequences of terms with equal counts have equal sums.
    pub proof fn lemma_free_count_sum_equal(ts: Seq<Term>, us: Seq<Term>, n: nat, x: Name)
        requires
            n <= ts.len() == us.len(),
            forall|i: int| 0 <= i < n ==> (#[trigger] ts[i]).free_count(x) == us[i].free_count(x),
        ensures
            Self::free_count_sum(ts, n, x) == Self::free_count_sum(us, n, x),
        decreases n,
    {
        if n > 0 {
            Self::lemma_free_count_sum_equal(ts, us, (n - 1) as nat, x);
        }
    }

    /// An argument of a macro invocation is smaller than the invocation.
    pub proof fn lemma_arg_size(self, i: int)
        requires
            self is Deferred,
            0 <= i < self->Deferred_1.len(),
        ensures
            self->Deferred_1[i].size() < self.size(),
    {
        Self::lemma_size_sum_bounds(self->Deferred_1, self->Deferred_1.len(), i);
    }

    /// No term among the first `n` is larger than the sum of their sizes.
    pub proof fn lemma_size_sum_bounds(ts: Seq<Term>, n: nat, i: int)
        requires
            0 <= i < n <= ts.len(),
        ensures
            ts[i].size() <= Self::size_sum(ts, n),
        decreases n,
    {
        if i < n - 1 {
            Self::lemma_size_sum_bounds(ts, (n - 1) as nat, i);
        }
    }

    /// No term among the first `n` has a bound above the sum of their bounds.
    pub proof fn lemma_len_bound_sum_bounds(ts: Seq<Term>, n: nat, i: int)
        requires
            0 <= i < n <= ts.len(),
        ensures
            ts[i].len_bound() <= Self::len_bound_sum(ts, n),
        decreases n,
    {
        if i < n - 1 {
            Self::lemma_len_bound_sum_bounds(ts, (n - 1) as nat, i);
        }
    }

    /// Sequences of terms of equal sizes have equal sums.
    pub proof fn lemma_size_sum_equal(ts: Seq<Term>, us: Seq<Term>, n: nat)
        requires
            n <= ts.len() == us.len(),
            forall|i: int| 0 <= i < n ==> (#[trigger] ts[i]).size() == us[i].size(),
        ensures
            Self::size_sum(ts, n) == Self::size_sum(us, n),
        decreases n,
    {
        if n > 0 {
            Self::lemma_size_sum_equal(ts, us, (n - 1) as nat);
        }
    }

    /// A name that stands in the term is no longer than the term's bound.
    pub proof fn lemma_len_bound(self, n: Name)
        requires
            self.mentions(n),
        ensures
            n.len() <= self.len_bound(),
        decreases self,
    {
        match self {
            Term::Var(_) => {},
            Term::Abs(x, b) => {
                if x != n {
                    b.lemma_len_bound(n);
                }
            },
            Term::App(l, r) => {
                if l.mentions(n) {
                    l.lemma_len_bound(n);
                } else {
                    r.lemma_len_bound(n);
                }
            },
            Term::Named(_, t) => {
                t.lemma_len_bound(n);
            },
            Term::Num(_) => {},
            Term::Deferred(_, args) => {
                let i = if self.has_free(n) {
                    choose|i: int| 0 <= i < args.len() && (#[trigger] args[i]).has_free(n)
                } else {
                    choose|i: int| 0 <= i < args.len() && (#[trigger] args[i]).has_binder(n)
                };
                args[i].lemma_len_bound(n);
                Self::lemma_len_bound_sum_bounds(args, args.len(), i);
            },
        }
    }

    /// Renaming keeps the size.
    pub proof fn lemma_replace_free_size(self, y: Name, z: Name)
        ensures
            self.replace_free(y, z).size() == self.size(),
        decreases self,
    {
        match self {
            Term::Var(_) => {},
            Term::Abs(x, b) => {
                if x != y {
                    b.lemma_replace_free_size(y, z);
                }
            },
            Term::App(l, r) => {
                l.lemma_replace_free_size(y, z);
                r.lemma_replace_free_size(y, z);
            },
            Term::Named(_, _) => {},
            Term::Num(_) => {},
            Term::Deferred(m, args) => {
                let out = self.replace_free(y, z)->Deferred_1;
                assert forall|i: int| 0 <= i < args.len() implies (#[trigger] out[i]).size()
                    == args[i].size() by {
                    args[i].lemma_replace_free_size(y, z);
                }
                Self::lemma_size_sum_equal(out, args, args.len());
            },
        }
    }
}

} // verus!
