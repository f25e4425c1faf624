//! Substitution, the normal-order step and the reduction loop.
use crate::ast::{child, lemma_bodies_at, position_of, subterm, Book, Branch, Expr, Name, Term};
use crate::passes::{bind, resolve, resolve_all};
use vstd::hash_set::StringHashSet;
use vstd::prelude::*;

verus! {

/// `t` with every free occurrence of the variable `x` replaced by `v`.
///
/// A function whose binder is `x` is left as it is: inside it `x` means the
/// binder. Binders are never renamed, so a free variable of `v` is captured
/// where it is put under a binder of the same name.
pub open spec fn subst(t: Expr, x: Seq<char>, v: Expr) -> Expr
    decreases t,
{
    match t {
        Expr::Lam { nam, bod } => if nam == Some(x) {
            t
        } else {
            Expr::Lam { nam, bod: Box::new(subst(*bod, x, v)) }
        },
        Expr::Var { nam } => if nam == x {
            v
        } else {
            t
        },
        Expr::App { fun, arg } => Expr::App {
            fun: Box::new(subst(*fun, x, v)),
            arg: Box::new(subst(*arg, x, v)),
        },
        Expr::Ref { nam } => t,
    }
}

/// Whether `t` is in weak head normal form: its outermost node is not an
/// application.
pub open spec fn is_whnf(t: Expr) -> bool {
    !(t is App)
}

/// Whether every reference in `t` names one of `names`.
pub open spec fn refs_in(t: Expr, names: Set<Seq<char>>) -> bool
    decreases t,
{
    match t {
        Expr::Lam { nam, bod } => refs_in(*bod, names),
        Expr::Var { nam } => true,
        Expr::App { fun, arg } => refs_in(*fun, names) && refs_in(*arg, names),
        Expr::Ref { nam } => names.contains(nam),
    }
}

/// Whether every reference in every body of `book` names a definition of
/// `book`.
pub open spec fn closed(book: Map<Seq<char>, Expr>) -> bool {
    forall|n: Seq<char>| book.contains_key(n) ==> refs_in(#[trigger] book[n], book.dom())
}

/// One step of normal-order reduction: the term that `t` is rewritten to, or
/// `None` where no step applies.
///
/// - Under a function, the step is taken in the body.
/// - An application of a function is replaced by the body, with the argument
///   put in place of the binder unless the binder is erased.
/// - An application of a reference has the reference replaced by the body of
///   its definition; the application itself is left for the next step.
/// - An application of an application takes its step in the function, and
///   only where none applies there, in the argument.
/// - An application of a variable is stuck, and so is a variable.
/// - A reference is replaced by the body of its definition.
pub open spec fn normal_order(t: Expr, book: Map<Seq<char>, Expr>) -> Option<Expr>
    decreases t,
{
    match t {
        Expr::Lam { nam, bod } => match normal_order(*bod, book) {
            Some(b) => Some(Expr::Lam { nam, bod: Box::new(b) }),
            None => None,
        },
        Expr::Var { nam } => None,
        Expr::App { fun, arg } => match *fun {
            Expr::Lam { nam, bod } => Some(
                match nam {
                    Some(n) => subst(*bod, n, *arg),
                    None => *bod,
                },
            ),
            Expr::Var { nam } => None,
            Expr::App { fun: _, arg: _ } => match normal_order(*fun, book) {
                Some(f) => Some(Expr::App { fun: Box::new(f), arg }),
                None => match normal_order(*arg, book) {
                    Some(a) => Some(Expr::App { fun, arg: Box::new(a) }),
                    None => None,
                },
            },
            Expr::Ref { nam } => Some(Expr::App { fun: Box::new(book[nam]), arg }),
        },
        Expr::Ref { nam } => Some(book[nam]),
    }
}

impl Term {
    /// Replaces every free occurrence of the variable `nam` in this term by a
    /// copy of `val`.
    pub fn subst(&mut self, nam: &Name, val: &Term)
        ensures
            final(self)@ == subst(old(self)@, nam@, val@),
        decreases *old(self),
    {
        match self {
            Term::Lam { nam: lam_nam, bod } => {
                let shadowed = match lam_nam {
                    Some(n) => *n == *nam,
                    None => false,
                };
                if !shadowed {
                    bod.subst(nam, val);
                }
            },
            Term::Var { nam: var_nam } => {
                if *var_nam == *nam {
                    *self = val.clone();
                }
            },
            Term::App { fun, arg } => {
                fun.subst(nam, val);
                arg.subst(nam, val);
            },
            Term::Ref { .. } => {},
        }
    }

    /// Whether this term is in weak head normal form.
    pub fn stop_whnf(&self) -> (res: bool)
        ensures
            res == is_whnf(self@),
    {
        match self {
            Term::Lam { .. } => true,
            Term::Var { .. } => true,
            Term::App { .. } => false,
            Term::Ref { .. } => true,
        }
    }

    /// The stop rule of full normal form: never stop early, so that reduction
    /// goes on until no step applies.
    pub fn stop_nf(&self) -> (res: bool)
        ensures
            !res,
    {
        false
    }

    /// Takes one normal-order step in place and says whether one applied.
    /// Where none does, the term is left as it was.
    pub fn normal_order_step(&mut self, book: &Book) -> (res: bool)
        requires
            refs_in(old(self)@, book@.dom()),
        ensures
            match normal_order(old(self)@, book@) {
                Some(next) => res && final(self)@ == next,
                None => !res && final(self)@ == old(self)@,
            },
        decreases *old(self),
    {
        match self {
            Term::Lam { nam: _, bod } => bod.normal_order_step(book),
            Term::Var { nam: _ } => false,
            Term::App { fun, arg } => match &**fun {
                Term::Lam { .. } => {
                    if let Term::Lam { nam, bod } = &mut **fun {
                        if let Some(nam) = nam {
                            bod.subst(nam, arg);
                        }
                        let mut body = Term::default();
                        std::mem::swap(&mut body, &mut **bod);
                        *self = body;
                        true
                    } else {
                        false
                    }
                },
                Term::Var { .. } => false,
                Term::App { .. } => {
                    if fun.normal_order_step(book) {
                        true
                    } else {
                        arg.normal_order_step(book)
                    }
                },
                Term::Ref { nam } => {
                    assert(refs_in(fun@, book@.dom()));
                    **fun = book.body_of(nam);
                    true
                },
            },
            Term::Ref { nam } => {
                *self = book.body_of(nam);
                true
            },
        }
    }
}

/// Substitution brings in no reference that the term and the value do not
/// hold already.
pub proof fn lemma_subst_keeps_refs(t: Expr, x: Seq<char>, v: Expr, names: Set<Seq<char>>)
    requires
        refs_in(t, names),
        refs_in(v, names),
    ensures
        refs_in(subst(t, x, v), names),
    decreases t,
{
    match t {
        Expr::Lam { nam, bod } => {
            if nam != Some(x) {
                lemma_subst_keeps_refs(*bod, x, v, names);
            }
        },
        Expr::Var { nam } => {},
        Expr::App { fun, arg } => {
            lemma_subst_keeps_refs(*fun, x, v, names);
            lemma_subst_keeps_refs(*arg, x, v, names);
        },
        Expr::Ref { nam } => {},
    }
}

/// In a closed book, a normal-order step leads from a term whose references
/// are all defined to another such term.
pub proof fn lemma_step_keeps_refs(t: Expr, book: Map<Seq<char>, Expr>)
    requires
        closed(book),
        refs_in(t, book.dom()),
    ensures
        normal_order(t, book) matches Some(next) ==> refs_in(next, book.dom()),
    decreases t,
{
    reveal_with_fuel(refs_in, 3);
    match t {
        Expr::Lam { nam, bod } => {
            lemma_step_keeps_refs(*bod, book);
        },
        Expr::Var { nam } => {},
        Expr::App { fun, arg } => {
            match *fun {
                Expr::Lam { nam, bod } => {
                    if let Some(n) = nam {
                        lemma_subst_keeps_refs(*bod, n, *arg, book.dom());
                    }
                },
                Expr::Var { nam } => {},
                Expr::App { fun: _, arg: _ } => {
                    lemma_step_keeps_refs(*fun, book);
                    lemma_step_keeps_refs(*arg, book);
                },
                Expr::Ref { nam } => {
                    assert(book.contains_key(nam));
                },
            }
        },
        Expr::Ref { nam } => {
            assert(book.contains_key(nam));
        },
    }
}

/// Substitution is local: a function whose binder is the substituted name is
/// left as it is, wherever in the term it stands.
pub proof fn law_subst_local(t: Expr, x: Seq<char>, v: Expr, path: Seq<Branch>)
    requires
        subterm(t, path) matches Some(Expr::Lam { nam, bod }) && nam == Some(x),
    ensures
        subterm(subst(t, x, v), path) == subterm(t, path),
    decreases path.len(),
{
    if path.len() > 0 {
        match t {
            Expr::Lam { nam, bod } => {
                if nam != Some(x) {
                    law_subst_local(*bod, x, v, path.drop_first());
                }
            },
            Expr::Var { nam } => {},
            Expr::App { fun, arg } => {
                if path[0] == Branch::Fun {
                    law_subst_local(*fun, x, v, path.drop_first());
                } else if path[0] == Branch::Arg {
                    law_subst_local(*arg, x, v, path.drop_first());
                }
            },
            Expr::Ref { nam } => {},
        }
    }
}

/// What a call of the normal-order step may do to a term `t`: report `res`
/// and leave the term `after`.
pub open spec fn steps_to(t: Expr, book: Map<Seq<char>, Expr>, res: bool, after: Expr) -> bool {
    match normal_order(t, book) {
        Some(next) => res && after == next,
        None => !res && after == t,
    }
}

/// The normal-order step is a function of the term and the book: two calls on
/// the same term with the same book report the same and leave the same term.
pub proof fn law_step_deterministic(
    t: Expr,
    book: Map<Seq<char>, Expr>,
    res1: bool,
    after1: Expr,
    res2: bool,
    after2: Expr,
)
    requires
        steps_to(t, book, res1, after1),
        steps_to(t, book, res2, after2),
    ensures
        res1 == res2,
        after1 == after2,
{
}

/// Whether a step rewrites `t` at its root: `t` is a reference, or the
/// application of a function.
pub open spec fn is_redex(t: Expr) -> bool {
    match t {
        Expr::App { fun, arg } => *fun is Lam,
        Expr::Ref { nam } => true,
        _ => false,
    }
}

/// What a redex is rewritten to.
pub open spec fn contract(t: Expr, book: Map<Seq<char>, Expr>) -> Expr {
    match t {
        Expr::App { fun, arg } => match *fun {
            Expr::Lam { nam, bod } => match nam {
                Some(n) => subst(*bod, n, *arg),
                None => *bod,
            },
            _ => t,
        },
        Expr::Ref { nam } => book[nam],
        _ => t,
    }
}

/// The path to the redex that the normal-order step rewrites in `t`, or
/// `None` where it finds none.
pub open spec fn redex_path(t: Expr) -> Option<Seq<Branch>>
    decreases t,
{
    match t {
        Expr::Lam { nam, bod } => match redex_path(*bod) {
            Some(p) => Some(seq![Branch::Body] + p),
            None => None,
        },
        Expr::Var { nam } => None,
        Expr::App { fun, arg } => match *fun {
            Expr::Lam { nam: _, bod: _ } => Some(Seq::empty()),
            Expr::Var { nam: _ } => None,
            Expr::App { fun: _, arg: _ } => match redex_path(*fun) {
                Some(p) => Some(seq![Branch::Fun] + p),
                None => match redex_path(*arg) {
                    Some(p) => Some(seq![Branch::Arg] + p),
                    None => None,
                },
            },
            Expr::Ref { nam: _ } => Some(seq![Branch::Fun]),
        },
        Expr::Ref { nam } => Some(Seq::empty()),
    }
}

/// `t` with the node that `path` leads to replaced by `new`. Where `path`
/// leads to no node, `t` itself.
pub open spec fn replace_at(t: Expr, path: Seq<Branch>, new: Expr) -> Expr
    decreases path.len(),
{
    if path.len() == 0 {
        new
    } else {
        match (t, path[0]) {
            (Expr::Lam { nam, bod }, Branch::Body) => Expr::Lam {
                nam,
                bod: Box::new(replace_at(*bod, path.drop_first(), new)),
            },
            (Expr::App { fun, arg }, Branch::Fun) => Expr::App {
                fun: Box::new(replace_at(*fun, path.drop_first(), new)),
                arg,
            },
            (Expr::App { fun, arg }, Branch::Arg) => Expr::App {
                fun,
                arg: Box::new(replace_at(*arg, path.drop_first(), new)),
            },
            _ => t,
        }
    }
}

/// The normal-order step rewrites one redex, and always the same one. There
/// is a step if and only if `redex_path` finds a redex; the step then
/// replaces that redex by what it contracts to and leaves the rest of the
/// term as it is.
pub proof fn law_step_rewrites_one_redex(t: Expr, book: Map<Seq<char>, Expr>)
    ensures
        normal_order(t, book) is Some <==> redex_path(t) is Some,
        redex_path(t) matches Some(p) ==> {
            &&& subterm(t, p) is Some
            &&& is_redex(subterm(t, p)->Some_0)
            &&& normal_order(t, book) == Some(
                replace_at(t, p, contract(subterm(t, p)->Some_0, book)),
            )
        },
    decreases t,
{
    match t {
        Expr::Lam { nam, bod } => {
            law_step_rewrites_one_redex(*bod, book);
            if let Some(p) = redex_path(*bod) {
                assert((seq![Branch::Body] + p).drop_first() =~= p);
            }
        },
        Expr::Var { nam } => {},
        Expr::App { fun, arg } => {
            match *fun {
                Expr::Lam { nam: _, bod: _ } => {},
                Expr::Var { nam: _ } => {},
                Expr::App { fun: _, arg: _ } => {
                    law_step_rewrites_one_redex(*fun, book);
                    law_step_rewrites_one_redex(*arg, book);
                    if let Some(p) = redex_path(*fun) {
                        assert((seq![Branch::Fun] + p).drop_first() =~= p);
                    } else if let Some(p) = redex_path(*arg) {
                        assert((seq![Branch::Arg] + p).drop_first() =~= p);
                    }
                },
                Expr::Ref { nam: _ } => {
                    let p = seq![Branch::Fun];
                    assert(p.drop_first() =~= Seq::<Branch>::empty());
                    assert(subterm(*fun, p.drop_first()) == Some(*fun));
                    assert(replace_at(*fun, p.drop_first(), contract(*fun, book)) == contract(
                        *fun,
                        book,
                    ));
                },
            }
        },
        Expr::Ref { nam } => {},
    }
}

/// The redex that the normal-order step rewrites is the outermost and
/// leftmost that it finds. No node above it is a redex. And wherever the path
/// to it goes into the argument of an application, the step finds no redex in
/// the function of that application.
pub proof fn law_step_is_leftmost_outermost(t: Expr, k: int)
    requires
        redex_path(t) is Some,
        0 <= k < redex_path(t)->Some_0.len(),
    ensures
        subterm(t, redex_path(t)->Some_0.take(k)) is Some,
        !is_redex(subterm(t, redex_path(t)->Some_0.take(k))->Some_0),
        redex_path(t)->Some_0[k] == Branch::Arg ==> {
            &&& subterm(t, redex_path(t)->Some_0.take(k).push(Branch::Fun)) is Some
            &&& redex_path(
                subterm(t, redex_path(t)->Some_0.take(k).push(Branch::Fun))->Some_0,
            ) is None
        },
    decreases t,
{
    let p = redex_path(t)->Some_0;
    let above = p.take(k);
    let left = above.push(Branch::Fun);
    reveal_with_fuel(subterm, 2);
    if k == 0 {
        assert(above =~= Seq::<Branch>::empty());
        assert(left.drop_first() =~= Seq::<Branch>::empty());
        assert(left[0] == Branch::Fun);
    } else {
        assert(above[0] == p[0] && left[0] == p[0]);
        let inner = child(t, p[0])->Some_0;
        let rest = redex_path(inner)->Some_0;
        assert(p.drop_first() =~= rest);
        assert(above.drop_first() =~= rest.take(k - 1));
        assert(left.drop_first() =~= rest.take(k - 1).push(Branch::Fun));
        law_step_is_leftmost_outermost(inner, k - 1);
    }
}

/// Whether some node of `t` is a redex.
pub open spec fn contains_redex(t: Expr) -> bool
    decreases t,
{
    match t {
        Expr::Lam { nam, bod } => contains_redex(*bod),
        Expr::Var { nam } => false,
        Expr::App { fun, arg } => is_redex(t) || contains_redex(*fun) || contains_redex(*arg),
        Expr::Ref { nam } => true,
    }
}

/// Whether the normal-order step passes over no redex of `t`. An application
/// of a variable is stuck as a whole: the step does not look into its
/// argument. So this asks that no such argument holds a redex.
pub open spec fn overlooks_nothing(t: Expr) -> bool
    decreases t,
{
    match t {
        Expr::Lam { nam, bod } => overlooks_nothing(*bod),
        Expr::Var { nam } => true,
        Expr::App { fun, arg } => {
            &&& overlooks_nothing(*fun)
            &&& overlooks_nothing(*arg)
            &&& *fun is Var ==> !contains_redex(*arg)
        },
        Expr::Ref { nam } => true,
    }
}

/// Where the step passes over nothing in a term, it passes over nothing in
/// any node of it.
proof fn lemma_overlooks_nothing_below(t: Expr, path: Seq<Branch>)
    requires
        overlooks_nothing(t),
        subterm(t, path) is Some,
    ensures
        overlooks_nothing(subterm(t, path)->Some_0),
    decreases path.len(),
{
    if path.len() > 0 {
        lemma_overlooks_nothing_below(child(t, path[0])->Some_0, path.drop_first());
    }
}

/// Where the step passes over nothing, it finds no redex if and only if
/// there is none: the term is then in normal form.
pub proof fn law_no_step_iff_normal(t: Expr)
    requires
        overlooks_nothing(t),
    ensures
        redex_path(t) is None <==> !contains_redex(t),
    decreases t,
{
    match t {
        Expr::Lam { nam, bod } => {
            law_no_step_iff_normal(*bod);
        },
        Expr::Var { nam } => {},
        Expr::App { fun, arg } => {
            law_no_step_iff_normal(*fun);
            law_no_step_iff_normal(*arg);
        },
        Expr::Ref { nam } => {},
    }
}

/// Where the step passes over nothing, the redex that it rewrites is the
/// leftmost: wherever the path to it goes into the argument of an
/// application, the function of that application holds no redex.
pub proof fn law_step_is_leftmost(t: Expr, k: int)
    requires
        overlooks_nothing(t),
        redex_path(t) is Some,
        0 <= k < redex_path(t)->Some_0.len(),
        redex_path(t)->Some_0[k] == Branch::Arg,
    ensures
        subterm(t, redex_path(t)->Some_0.take(k).push(Branch::Fun)) is Some,
        !contains_redex(subterm(t, redex_path(t)->Some_0.take(k).push(Branch::Fun))->Some_0),
{
    let left = redex_path(t)->Some_0.take(k).push(Branch::Fun);
    law_step_is_leftmost_outermost(t, k);
    lemma_overlooks_nothing_below(t, left);
    law_no_step_iff_normal(subterm(t, left)->Some_0);
}

/// Stopping is idempotent. Where the stop rule holds of a term, a reduction
/// from it takes no step whatever the limit: the term is all it goes
/// through, and it ends as stopped.
pub proof fn law_stop_is_idempotent<S: StopRule, R: StepRule>(
    stop: S,
    step: R,
    t: Expr,
    book: Map<Seq<char>, Expr>,
    limit: nat,
)
    requires
        stop.holds(t),
    ensures
        trace(stop, step, t, book, limit) == seq![t],
        outcome(stop, step, t, book, limit) == Outcome::Stopped,
{
}

/// A reduction that ends as stopped ends in a term of which the stop rule
/// holds, so that reducing again changes nothing; one that ends otherwise
/// ends in a term of which it does not hold. A reduction goes through at
/// most one term more than it may take steps.
pub proof fn law_outcome_tells_stop<S: StopRule, R: StepRule>(
    stop: S,
    step: R,
    t: Expr,
    book: Map<Seq<char>, Expr>,
    limit: nat,
)
    ensures
        1 <= trace(stop, step, t, book, limit).len() <= limit + 1,
        trace(stop, step, t, book, limit)[0] == t,
        outcome(stop, step, t, book, limit) == Outcome::Stopped <==> stop.holds(
            trace(stop, step, t, book, limit).last(),
        ),
        outcome(stop, step, t, book, limit) == Outcome::NoRedex ==> step.next(
            trace(stop, step, t, book, limit).last(),
            book,
        ) is None,
        outcome(stop, step, t, book, limit) == Outcome::OutOfSteps ==> trace(
            stop,
            step,
            t,
            book,
            limit,
        ).len() == limit + 1,
    decreases limit,
{
    if limit > 0 && !stop.holds(t) {
        if let Some(next) = step.next(t, book) {
            law_outcome_tells_stop(stop, step, next, book, (limit - 1) as nat);
        }
    }
}

/// A reduction can be taken up where an earlier one ran out of steps: `more`
/// steps from the term that `limit` steps led to go through the terms that
/// `limit + more` steps go through from the start, and end as they do.
pub proof fn law_reduction_resumes<S: StopRule, R: StepRule>(
    stop: S,
    step: R,
    t: Expr,
    book: Map<Seq<char>, Expr>,
    limit: nat,
    more: nat,
)
    ensures
        trace(stop, step, t, book, limit + more) == trace(stop, step, t, book, limit).drop_last()
            + trace(stop, step, trace(stop, step, t, book, limit).last(), book, more),
        outcome(stop, step, t, book, limit) == Outcome::OutOfSteps ==> outcome(
            stop,
            step,
            t,
            book,
            limit + more,
        ) == outcome(stop, step, trace(stop, step, t, book, limit).last(), book, more),
        outcome(stop, step, t, book, limit) != Outcome::OutOfSteps ==> outcome(
            stop,
            step,
            t,
            book,
            limit + more,
        ) == outcome(stop, step, t, book, limit),
    decreases limit,
{
    let whole = trace(stop, step, t, book, limit + more);
    let head = trace(stop, step, t, book, limit);
    if limit == 0 {
        assert(head.drop_last() + whole =~= whole);
    } else if stop.holds(t) {
        assert(head.drop_last() + seq![t] =~= seq![t]);
    } else {
        match step.next(t, book) {
            Some(next) => {
                law_reduction_resumes(stop, step, next, book, (limit - 1) as nat, more);
                law_outcome_tells_stop(stop, step, next, book, (limit - 1) as nat);
                let tail = trace(stop, step, next, book, (limit - 1) as nat);
                assert(head == seq![t] + tail);
                assert(head.last() == tail.last());
                assert(head.drop_last() =~= seq![t] + tail.drop_last());
                assert((limit + more - 1) as nat == (limit - 1) as nat + more);
                assert(whole =~= head.drop_last() + trace(stop, step, head.last(), book, more));
            },
            None => {
                assert(head.drop_last() + trace(stop, step, t, book, more) =~= seq![t]);
            },
        }
    }
}

/// A rule that says when a term has reached the form that a reduction is
/// after.
pub trait StopRule {
    /// Whether `t` has the form.
    spec fn holds(&self, t: Expr) -> bool;

    /// Whether `term` has the form.
    fn stop(&self, term: &Term) -> (res: bool)
        ensures
            res == self.holds(term@),
    ;
}

/// A rule that picks the next step of a reduction.
pub trait StepRule {
    /// The term that one step leads to from `t`, or `None` where the rule
    /// finds no step.
    spec fn next(&self, t: Expr, book: Map<Seq<char>, Expr>) -> Option<Expr>;

    /// Takes one step on `term` in place and says whether there was one.
    /// Without a step `term` is left as it was. A step keeps every reference
    /// of `term` defined.
    fn step(&self, term: &mut Term, book: &Book) -> (res: bool)
        requires
            closed(book@),
            refs_in(old(term)@, book@.dom()),
        ensures
            match self.next(old(term)@, book@) {
                Some(next) => res && final(term)@ == next,
                None => !res && final(term)@ == old(term)@,
            },
            refs_in(final(term)@, book@.dom()),
    ;
}

/// The stop rules at hand.
#[derive(Debug, Clone, Copy, PartialEq, Eq)]
pub enum Stop {
    /// Normal form: reduce until no step applies.
    Nf,
    /// Weak head normal form: reduce until the outermost node is no
    /// application.
    Whnf,
}

/// The step rules at hand.
#[derive(Debug, Clone, Copy, PartialEq, Eq)]
pub enum Step {
    /// Normal order: the function of an application before its argument.
    NormalOrder,
}

impl StopRule for Stop {
    open spec fn holds(&self, t: Expr) -> bool {
        match self {
            Stop::Nf => false,
            Stop::Whnf => is_whnf(t),
        }
    }

    fn stop(&self, term: &Term) -> (res: bool) {
        match self {
            Stop::Nf => term.stop_nf(),
            Stop::Whnf => term.stop_whnf(),
        }
    }
}

impl StepRule for Step {
    open spec fn next(&self, t: Expr, book: Map<Seq<char>, Expr>) -> Option<Expr> {
        match self {
            Step::NormalOrder => normal_order(t, book),
        }
    }

    fn step(&self, term: &mut Term, book: &Book) -> (res: bool) {
        proof {
            lemma_step_keeps_refs(term@, book@);
        }
        match self {
            Step::NormalOrder => term.normal_order_step(book),
        }
    }
}

/// How a reduction ended.
#[derive(Debug, Clone, Copy, PartialEq, Eq)]
pub enum Outcome {
    /// The stop rule holds of the term.
    Stopped,
    /// The stop rule does not hold, and the step rule found no step: the term
    /// is stuck. This is a result, not a failure.
    NoRedex,
    /// The stop rule does not hold, and the allowed number of steps has been
    /// taken.
    OutOfSteps,
}

/// The terms that a reduction of at most `limit` steps goes through: `t`, then
/// the result of each step, up to the first term of which the stop rule holds
/// or from which there is no step.
pub open spec fn trace<S: StopRule, R: StepRule>(
    stop: S,
    step: R,
    t: Expr,
    book: Map<Seq<char>, Expr>,
    limit: nat,
) -> Seq<Expr>
    decreases limit,
{
    if limit == 0 || stop.holds(t) {
        seq![t]
    } else {
        match step.next(t, book) {
            Some(next) => seq![t] + trace(stop, step, next, book, (limit - 1) as nat),
            None => seq![t],
        }
    }
}

/// How a reduction of at most `limit` steps from `t` ends.
pub open spec fn outcome<S: StopRule, R: StepRule>(
    stop: S,
    step: R,
    t: Expr,
    book: Map<Seq<char>, Expr>,
    limit: nat,
) -> Outcome
    decreases limit,
{
    if stop.holds(t) {
        Outcome::Stopped
    } else if limit == 0 {
        Outcome::OutOfSteps
    } else {
        match step.next(t, book) {
            Some(next) => outcome(stop, step, next, book, (limit - 1) as nat),
            None => Outcome::NoRedex,
        }
    }
}

/// The models of a sequence of terms.
pub open spec fn models(terms: Seq<Term>) -> Seq<Expr> {
    terms.map_values(|t: Term| t@)
}

impl Term {
    /// Reduces this term in place: steps while the stop rule does not hold,
    /// until the step rule finds no step or `limit` steps have been taken.
    /// The term is left as the last step made it.
    ///
    /// A reduction need not come to an end: a definition may unfold to itself
    /// for ever. `limit` bounds one call; after `Outcome::OutOfSteps` another
    /// call takes the reduction up where this one left it.
    pub fn reduce<S: StopRule, R: StepRule>(
        &mut self,
        book: &Book,
        stop: &S,
        step: &R,
        limit: usize,
    ) -> (res: Outcome)
        requires
            closed(book@),
            refs_in(old(self)@, book@.dom()),
        ensures
            final(self)@ == trace(*stop, *step, old(self)@, book@, limit as nat).last(),
            res == outcome(*stop, *step, old(self)@, book@, limit as nat),
            refs_in(final(self)@, book@.dom()),
    {
        let mut taken: usize = 0;
        while taken < limit
            invariant
                taken <= limit,
                closed(book@),
                refs_in(self@, book@.dom()),
                trace(*stop, *step, old(self)@, book@, limit as nat).last() == trace(
                    *stop,
                    *step,
                    self@,
                    book@,
                    (limit - taken) as nat,
                ).last(),
                outcome(*stop, *step, old(self)@, book@, limit as nat) == outcome(
                    *stop,
                    *step,
                    self@,
                    book@,
                    (limit - taken) as nat,
                ),
            decreases limit - taken,
        {
            if stop.stop(self) {
                return Outcome::Stopped;
            }
            if !step.step(self, book) {
                return Outcome::NoRedex;
            }
            taken = taken + 1;
        }
        if stop.stop(self) {
            Outcome::Stopped
        } else {
            Outcome::OutOfSteps
        }
    }

    /// Reduces this term as [`Term::reduce`] does, and returns a copy of every
    /// term that the reduction went through: this term as it was, then the
    /// result of each step.
    pub fn reduce_stepped<S: StopRule, R: StepRule>(
        &mut self,
        book: &Book,
        stop: &S,
        step: &R,
        limit: usize,
    ) -> (steps: Vec<Term>)
        requires
            closed(book@),
            refs_in(old(self)@, book@.dom()),
        ensures
            models(steps@) == trace(*stop, *step, old(self)@, book@, limit as nat),
            final(self)@ == trace(*stop, *step, old(self)@, book@, limit as nat).last(),
            refs_in(final(self)@, book@.dom()),
    {
        let mut steps: Vec<Term> = Vec::new();
        steps.push(self.clone());
        assert(models(steps@) =~= seq![self@]);
        let mut taken: usize = 0;
        while taken < limit
            invariant
                taken <= limit,
                closed(book@),
                refs_in(self@, book@.dom()),
                steps@.len() > 0,
                models(steps@).last() == self@,
                trace(*stop, *step, old(self)@, book@, limit as nat) == models(
                    steps@,
                ).drop_last() + trace(*stop, *step, self@, book@, (limit - taken) as nat),
            decreases limit - taken,
        {
            if stop.stop(self) {
                assert(models(steps@).drop_last() + seq![self@] =~= models(steps@));
                return steps;
            }
            let ghost before = models(steps@);
            let ghost from = self@;
            if !step.step(self, book) {
                assert(before.drop_last() + seq![from] =~= before);
                return steps;
            }
            steps.push(self.clone());
            taken = taken + 1;
            proof {
                let rest = trace(*stop, *step, self@, book@, (limit - taken) as nat);
                assert(models(steps@) =~= before.push(self@));
                assert(models(steps@).drop_last() =~= before);
                assert(before.drop_last() + (seq![from] + rest) =~= before + rest);
            }
        }
        assert(models(steps@).drop_last() + seq![self@] =~= models(steps@));
        steps
    }
}

impl Term {
    /// Whether every reference in this term names one of `def_names`.
    pub fn refs_defined(&self, def_names: &StringHashSet) -> (res: bool)
        ensures
            res == refs_in(self@, def_names@),
        decreases self,
    {
        match self {
            Term::Lam { nam: _, bod } => bod.refs_defined(def_names),
            Term::Var { nam: _ } => true,
            Term::App { fun, arg } => fun.refs_defined(def_names) && arg.refs_defined(def_names),
            Term::Ref { nam } => def_names.contains(nam.as_str()),
        }
    }
}

impl Book {
    /// A copy of the body of the definition called `nam`.
    fn body_of(&self, nam: &Name) -> (res: Term)
        requires
            self@.contains_key(nam@),
        ensures
            res@ == self@[nam@],
    {
        match self.get(nam) {
            Some(def) => def.bod.clone(),
            None => Term::default(),
        }
    }

    /// Whether every reference in every body names a definition of this
    /// book.
    pub fn is_closed(&self) -> (res: bool)
        ensures
            res == closed(self@),
    {
        proof {
            use_type_invariant(self);
        }
        let names = self.def_names();
        let mut i: usize = 0;
        while i < self.defs.len()
            invariant
                i <= self.defs.len(),
                names@ == self@.dom(),
                self.well_formed(),
                forall|k: int| 0 <= k < i ==> refs_in((#[trigger] self.defs[k]).bod@, names@),
            decreases self.defs.len() - i,
        {
            if !self.defs[i].bod.refs_defined(&names) {
                proof {
                    lemma_bodies_at(self.defs@, i as int);
                }
                return false;
            }
            i = i + 1;
        }
        proof {
            assert forall|n: Seq<char>| self@.contains_key(n) implies refs_in(
                #[trigger] self@[n],
                self@.dom(),
            ) by {
                let k = position_of(self.defs@, n);
                lemma_bodies_at(self.defs@, k);
            }
        }
        true
    }
}

/// Resolution brings in references to definitions only.
pub proof fn lemma_resolve_keeps_refs(
    t: Expr,
    defs: Set<Seq<char>>,
    scope: Set<Seq<char>>,
    names: Set<Seq<char>>,
)
    requires
        refs_in(t, names),
        defs.subset_of(names),
    ensures
        refs_in(resolve(t, defs, scope), names),
    decreases t,
{
    match t {
        Expr::Lam { nam, bod } => {
            lemma_resolve_keeps_refs(*bod, defs, bind(scope, nam), names);
        },
        Expr::Var { nam } => {},
        Expr::App { fun, arg } => {
            lemma_resolve_keeps_refs(*fun, defs, scope, names);
            lemma_resolve_keeps_refs(*arg, defs, scope, names);
        },
        Expr::Ref { nam } => {},
    }
}

/// Resolving a closed book gives a closed book with the same names.
pub proof fn law_resolved_book_is_closed(book: Map<Seq<char>, Expr>)
    requires
        closed(book),
    ensures
        resolve_all(book).dom() == book.dom(),
        closed(resolve_all(book)),
{
    assert(resolve_all(book).dom() =~= book.dom());
    assert forall|n: Seq<char>| resolve_all(book).contains_key(n) implies refs_in(
        #[trigger] resolve_all(book)[n],
        resolve_all(book).dom(),
    ) by {
        lemma_resolve_keeps_refs(book[n], book.dom(), Set::empty(), book.dom());
    }
}

/// The forms that a reduction can be asked to reach.
#[derive(Debug, Clone, Copy, PartialEq, Eq)]
pub enum Form {
    /// Normal form.
    Nf,
    /// Weak normal form.
    Wnf,
    /// Head normal form.
    Hnf,
    /// Weak head normal form.
    Whnf,
}

/// The orders in which a reduction can be asked to take its steps.
#[derive(Debug, Clone, Copy, PartialEq, Eq)]
pub enum ReductionOrder {
    /// Normal order.
    Normal,
    /// Applicative order.
    Applicative,
}

/// The stop rule for `form`, where there is one: for normal form and for
/// weak head normal form.
pub fn stop_fn(form: &Form) -> (res: Option<Stop>)
    ensures
        res == match form {
            Form::Nf => Some(Stop::Nf),
            Form::Wnf => None,
            Form::Hnf => None,
            Form::Whnf => Some(Stop::Whnf),
        },
{
    match form {
        Form::Nf => Some(Stop::Nf),
        Form::Wnf => None,
        Form::Hnf => None,
        Form::Whnf => Some(Stop::Whnf),
    }
}

/// The step rule for `order`, where there is one: for normal order.
pub fn step_fn(order: &ReductionOrder) -> (res: Option<Step>)
    ensures
        res == match order {
            ReductionOrder::Normal => Some(Step::NormalOrder),
            ReductionOrder::Applicative => None,
        },
{
    match order {
        ReductionOrder::Normal => Some(Step::NormalOrder),
        ReductionOrder::Applicative => None,
    }
}

} // verus!
