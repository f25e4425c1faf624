//! The two validation passes: turning free variables that name a definition
//! into references, and rejecting the free variables that remain.
use crate::ast::{binder_of, child, subterm, Branch, bodies, defines, distinct_names, lemma_bodies_at, position_of, Book, Definition, Expr, Name, Term};
use vstd::hash_set::StringHashSet;
use vstd::multiset::Multiset;
use vstd::prelude::*;
use vstd::seq_lib::group_to_multiset_ensures;
use vstd::string::StringExecFns;

verus! {

/// The names in scope below a binder: `scope`, and the binder's name unless
/// the binder is erased.
pub open spec fn bind(scope: Set<Seq<char>>, nam: Option<Seq<char>>) -> Set<Seq<char>> {
    match nam {
        Some(n) => scope.insert(n),
        None => scope,
    }
}

/// `t` with every variable that is not in scope and names a definition
/// replaced by a reference to that definition. `scope` holds the names bound
/// around `t`; every binder passed on the way down adds its own.
pub open spec fn resolve(t: Expr, defs: Set<Seq<char>>, scope: Set<Seq<char>>) -> Expr
    decreases t,
{
    match t {
        Expr::Lam { nam, bod } => Expr::Lam {
            nam,
            bod: Box::new(resolve(*bod, defs, bind(scope, nam))),
        },
        Expr::Var { nam } => if !scope.contains(nam) && defs.contains(nam) {
            Expr::Ref { nam }
        } else {
            t
        },
        Expr::App { fun, arg } => Expr::App {
            fun: Box::new(resolve(*fun, defs, scope)),
            arg: Box::new(resolve(*arg, defs, scope)),
        },
        Expr::Ref { nam } => t,
    }
}

/// The first variable of `t` that is not in scope, going depth first, the
/// function of an application before its argument; `None` if every variable
/// is bound. References are never examined.
pub open spec fn first_unbound(t: Expr, scope: Set<Seq<char>>) -> Option<Seq<char>>
    decreases t,
{
    match t {
        Expr::Lam { nam, bod } => first_unbound(*bod, bind(scope, nam)),
        Expr::Var { nam } => if scope.contains(nam) {
            None
        } else {
            Some(nam)
        },
        Expr::App { fun, arg } => match first_unbound(*fun, scope) {
            Some(n) => Some(n),
            None => first_unbound(*arg, scope),
        },
        Expr::Ref { nam } => None,
    }
}

/// The names in scope at the node of `t` that `path` leads to: `scope`, and
/// the names of the binders that `path` passes.
pub open spec fn scope_at(t: Expr, scope: Set<Seq<char>>, path: Seq<Branch>) -> Set<Seq<char>>
    decreases path.len(),
{
    if path.len() == 0 {
        scope
    } else {
        match child(t, path[0]) {
            Some(c) => scope_at(
                c,
                match t {
                    Expr::Lam { nam, bod } => bind(scope, nam),
                    _ => scope,
                },
                path.drop_first(),
            ),
            None => scope,
        }
    }
}

/// Whether `path` leads to a variable of `t` that is not in scope there.
pub open spec fn free_at(t: Expr, scope: Set<Seq<char>>, path: Seq<Branch>) -> bool {
    subterm(t, path) matches Some(Expr::Var { nam }) && !scope_at(t, scope, path).contains(nam)
}

/// Resolution is sound. It keeps the shape of the term: every path leads to
/// a node afterwards if and only if it did before. A variable that remains
/// is in scope where it stands, or names no definition. A variable that
/// became a reference kept its name, named a definition, and was not in scope
/// where it stood. Every other node is what it was: a function keeps its
/// binder, a reference its name.
pub proof fn law_resolve_sound(
    t: Expr,
    defs: Set<Seq<char>>,
    scope: Set<Seq<char>>,
    path: Seq<Branch>,
)
    ensures
        subterm(resolve(t, defs, scope), path) is Some <==> subterm(t, path) is Some,
        subterm(resolve(t, defs, scope), path) matches Some(Expr::Var { nam }) ==> subterm(t, path)
            == Some(Expr::Var { nam }) && (scope_at(t, scope, path).contains(nam)
            || !defs.contains(nam)),
        subterm(t, path) matches Some(Expr::Var { nam }) ==> {
            ||| subterm(resolve(t, defs, scope), path) == Some(Expr::Var { nam })
            ||| subterm(resolve(t, defs, scope), path) == Some(Expr::Ref { nam }) && defs.contains(
                nam,
            ) && !scope_at(t, scope, path).contains(nam)
        },
        subterm(t, path) matches Some(Expr::Ref { nam }) ==> subterm(resolve(t, defs, scope), path)
            == Some(Expr::Ref { nam }),
        subterm(t, path) matches Some(Expr::Lam { nam, bod }) ==> subterm(
            resolve(t, defs, scope),
            path,
        ) == Some(
            Expr::Lam { nam, bod: Box::new(resolve(*bod, defs, bind(scope_at(t, scope, path), nam))) },
        ),
        subterm(t, path) is Some ==> (subterm(t, path)->Some_0 is App <==> subterm(
            resolve(t, defs, scope),
            path,
        )->Some_0 is App),
    decreases path.len(),
{
    if path.len() > 0 {
        match child(t, path[0]) {
            Some(c) => {
                let inner = match t {
                    Expr::Lam { nam, bod } => bind(scope, nam),
                    _ => scope,
                };
                law_resolve_sound(c, defs, inner, path.drop_first());
                assert(child(resolve(t, defs, scope), path[0]) == Some(resolve(c, defs, inner)));
            },
            None => {
                assert(child(resolve(t, defs, scope), path[0]) is None);
            },
        }
    }
}

/// A term with a free variable somewhere has a first unbound variable.
proof fn lemma_free_is_found(t: Expr, scope: Set<Seq<char>>, path: Seq<Branch>)
    requires
        free_at(t, scope, path),
    ensures
        first_unbound(t, scope) is Some,
    decreases path.len(),
{
    if path.len() > 0 {
        match child(t, path[0]) {
            Some(c) => {
                let inner = match t {
                    Expr::Lam { nam, bod } => bind(scope, nam),
                    _ => scope,
                };
                lemma_free_is_found(c, inner, path.drop_first());
            },
            None => {},
        }
    }
}

/// The check is complete: a term has a first unbound variable, and is
/// rejected, if and only if some path leads to a variable that is not in scope
/// where it stands.
pub proof fn law_check_complete(t: Expr, scope: Set<Seq<char>>)
    ensures
        first_unbound(t, scope) is Some <==> exists|path: Seq<Branch>| free_at(t, scope, path),
{
    if first_unbound(t, scope) is Some {
        let path = law_first_unbound_is_first(t, scope);
        assert(free_at(t, scope, path));
    }
    if exists|path: Seq<Branch>| free_at(t, scope, path) {
        let path = choose|path: Seq<Branch>| free_at(t, scope, path);
        lemma_free_is_found(t, scope, path);
    }
}

/// Whether the traversal comes to the node at `p` before the node at `q`,
/// for two nodes neither of which lies below the other: where the
/// paths part, `p` goes to the function and `q` to the argument.
pub open spec fn comes_before(p: Seq<Branch>, q: Seq<Branch>) -> bool {
    exists|k: int|
        0 <= k < p.len() && k < q.len() && p.take(k) == q.take(k) && #[trigger] p[k] == Branch::Fun
            && q[k] == Branch::Arg
}

/// `comes_before` is kept when both paths are extended by the same first step.
proof fn lemma_comes_before_below(b: Branch, p: Seq<Branch>, q: Seq<Branch>)
    requires
        comes_before(p, q),
    ensures
        comes_before(seq![b] + p, seq![b] + q),
{
    let k = choose|k: int|
        0 <= k < p.len() && k < q.len() && p.take(k) == q.take(k) && #[trigger] p[k] == Branch::Fun
            && q[k] == Branch::Arg;
    let pp = seq![b] + p;
    let qq = seq![b] + q;
    assert(pp.take(k + 1) =~= seq![b] + p.take(k));
    assert(qq.take(k + 1) =~= seq![b] + q.take(k));
    assert(pp[k + 1] == Branch::Fun);
}

/// The variable that the check reports is the first that the traversal
/// meets: it stands at a path `first`, and every other path to a variable that
/// is not in scope comes after `first`.
pub proof fn law_first_unbound_is_first(t: Expr, scope: Set<Seq<char>>) -> (first: Seq<Branch>)
    requires
        first_unbound(t, scope) is Some,
    ensures
        free_at(t, scope, first),
        subterm(t, first) == Some(Expr::Var { nam: first_unbound(t, scope)->Some_0 }),
        forall|q: Seq<Branch>| #[trigger] free_at(t, scope, q) ==> q == first || comes_before(first, q),
    decreases t,
{
    match t {
        Expr::Lam { nam, bod } => {
            let rest = law_first_unbound_is_first(*bod, bind(scope, nam));
            let first = seq![Branch::Body] + rest;
            assert(first.drop_first() =~= rest);
            assert forall|q: Seq<Branch>| #[trigger] free_at(t, scope, q) implies q == first
                || comes_before(first, q) by {
                assert(q.len() > 0 && q[0] == Branch::Body);
                assert(free_at(*bod, bind(scope, nam), q.drop_first()));
                assert(q =~= seq![Branch::Body] + q.drop_first());
                if q.drop_first() != rest {
                    lemma_comes_before_below(Branch::Body, rest, q.drop_first());
                }
            }
            first
        },
        Expr::Var { nam } => {
            let first = Seq::<Branch>::empty();
            assert forall|q: Seq<Branch>| #[trigger] free_at(t, scope, q) implies q == first
                || comes_before(first, q) by {
                assert(q.len() == 0);
                assert(q =~= first);
            }
            first
        },
        Expr::App { fun, arg } => {
            if first_unbound(*fun, scope) is Some {
                let rest = law_first_unbound_is_first(*fun, scope);
                let first = seq![Branch::Fun] + rest;
                assert(first.drop_first() =~= rest);
                assert forall|q: Seq<Branch>| #[trigger] free_at(t, scope, q) implies q == first
                    || comes_before(first, q) by {
                    assert(q.len() > 0);
                    assert(q =~= seq![q[0]] + q.drop_first());
                    if q[0] == Branch::Fun {
                        assert(free_at(*fun, scope, q.drop_first()));
                        if q.drop_first() != rest {
                            lemma_comes_before_below(Branch::Fun, rest, q.drop_first());
                        }
                    } else {
                        assert(q[0] == Branch::Arg);
                        assert(first.take(0) =~= q.take(0));
                        assert(first[0] == Branch::Fun);
                    }
                }
                first
            } else {
                let rest = law_first_unbound_is_first(*arg, scope);
                let first = seq![Branch::Arg] + rest;
                assert(first.drop_first() =~= rest);
                assert forall|q: Seq<Branch>| #[trigger] free_at(t, scope, q) implies q == first
                    || comes_before(first, q) by {
                    assert(q.len() > 0);
                    assert(q =~= seq![q[0]] + q.drop_first());
                    if q[0] == Branch::Fun {
                        assert(free_at(*fun, scope, q.drop_first()));
                        lemma_free_is_found(*fun, scope, q.drop_first());
                    } else {
                        assert(q[0] == Branch::Arg);
                        assert(free_at(*arg, scope, q.drop_first()));
                        if q.drop_first() != rest {
                            lemma_comes_before_below(Branch::Arg, rest, q.drop_first());
                        }
                    }
                }
                first
            }
        },
        Expr::Ref { nam } => Seq::empty(),
    }
}

/// The message that reports `nam` as unbound.
pub open spec fn unbound_message(nam: Seq<char>) -> Seq<char> {
    "Unbound variable '"@ + nam + "'"@
}

/// The binders that are live at a point of a traversal, counted: a name is in
/// scope while it has been pushed more often than popped, so that leaving an
/// inner binder does not hide an outer binder of the same name.
#[derive(Debug)]
pub struct VarScope {
    names: Vec<Name>,
}

impl View for VarScope {
    type V = Multiset<Seq<char>>;

    /// How many live binders each name has.
    closed spec fn view(&self) -> Multiset<Seq<char>> {
        self.names@.map_values(|n: Name| n@).to_multiset()
    }
}

impl Default for VarScope {
    /// The scope with no binder.
    fn default() -> (res: Self)
        ensures
            res@ == Multiset::<Seq<char>>::empty(),
    {
        let res = VarScope { names: Vec::new() };
        proof {
            broadcast use group_to_multiset_ensures;

            assert(res.names@.map_values(|n: Name| n@) =~= Seq::<Seq<char>>::empty());
            assert(res@.len() == 0);
            assert(res@ =~= Multiset::<Seq<char>>::empty());
        }
        res
    }
}

impl VarScope {
    /// The names that are in scope: those with at least one live binder.
    pub open spec fn bound(&self) -> Set<Seq<char>> {
        Set::new(|n: Seq<char>| self@.count(n) > 0)
    }

    /// Enters a binder. An erased binder brings no name into scope.
    pub fn push(&mut self, nam: &Option<Name>)
        ensures
            final(self)@ == match nam {
                Some(n) => old(self)@.insert(n@),
                None => old(self)@,
            },
    {
        if let Some(n) = nam {
            self.names.push(n.clone());
            proof {
                broadcast use group_to_multiset_ensures;

                assert(self.names@.map_values(|n: Name| n@) =~= old(self).names@.map_values(
                    |n: Name| n@,
                ).push(n@));
            }
        }
    }

    /// Leaves a binder that was entered before. An erased binder changes
    /// nothing.
    pub fn pop(&mut self, nam: &Option<Name>)
        requires
            nam matches Some(n) ==> old(self)@.count(n@) > 0,
        ensures
            final(self)@ == match nam {
                Some(n) => old(self)@.remove(n@),
                None => old(self)@,
            },
    {
        if let Some(n) = nam {
            let ghost views = self.names@.map_values(|n: Name| n@);
            proof {
                broadcast use group_to_multiset_ensures;

                assert(views.contains(n@));
            }
            let ghost at: int = choose|k: int| 0 <= k < views.len() && views[k] == n@;
            let mut i: usize = self.names.len();
            while i > 0 && !(self.names[i - 1] == *n)
                invariant
                    0 <= at < i <= self.names.len() || (0 < i <= self.names.len() && self.names[i
                        - 1]@ == n@),
                    views == self.names@.map_values(|n: Name| n@),
                    0 <= at < views.len(),
                    views[at] == n@,
                    self.names == old(self).names,
                decreases i,
            {
                i = i - 1;
            }
            let _ = self.names.remove(i - 1);
            proof {
                broadcast use group_to_multiset_ensures;

                assert(self.names@.map_values(|n: Name| n@) =~= views.remove(i - 1));
            }
        }
    }

    /// Whether `nam` is in scope.
    pub fn has_var(&self, nam: &Name) -> (res: bool)
        ensures
            res == (self@.count(nam@) > 0),
    {
        let ghost views = self.names@.map_values(|n: Name| n@);
        let mut i: usize = 0;
        while i < self.names.len()
            invariant
                i <= self.names.len(),
                views == self.names@.map_values(|n: Name| n@),
                forall|k: int| 0 <= k < i ==> views[k] != nam@,
            decreases self.names.len() - i,
        {
            if self.names[i] == *nam {
                proof {
                    broadcast use group_to_multiset_ensures;

                    assert(views[i as int] == nam@);
                    assert(views.contains(nam@));
                }
                return true;
            }
            i = i + 1;
        }
        proof {
            broadcast use group_to_multiset_ensures;

            assert(!views.contains(nam@));
        }
        false
    }
}

impl Term {
    /// Rewrites this term in place: every variable that no enclosing binder
    /// binds and that names a definition becomes a reference to it. Variables
    /// that stay free are left for [`Term::check_unbounds`] to reject.
    pub fn resolve_refs(&mut self, def_names: &StringHashSet)
        ensures
            final(self)@ == resolve(old(self)@, def_names@, Set::empty()),
    {
        let mut scope = VarScope::default();
        assert(scope.bound() =~= Set::<Seq<char>>::empty());
        self.resolve_in(def_names, &mut scope);
    }

    /// Resolves below the binders that `scope` counts, and leaves `scope` as
    /// it found it.
    fn resolve_in(&mut self, def_names: &StringHashSet, scope: &mut VarScope)
        ensures
            final(self)@ == resolve(old(self)@, def_names@, old(scope).bound()),
            final(scope)@ == old(scope)@,
        decreases *old(self),
    {
        match self {
            Term::Lam { nam, bod } => {
                scope.push(nam);
                assert(scope.bound() =~= bind(old(scope).bound(), binder_of(*nam)));
                bod.resolve_in(def_names, scope);
                scope.pop(nam);
                assert(scope@ =~= old(scope)@);
            },
            Term::Var { nam } => {
                if !scope.has_var(nam) && def_names.contains(nam.as_str()) {
                    *self = Term::Ref { nam: nam.clone() };
                }
            },
            Term::App { fun, arg } => {
                fun.resolve_in(def_names, scope);
                arg.resolve_in(def_names, scope);
            },
            Term::Ref { .. } => {},
        }
    }

    /// Accepts this term if every variable in it is bound by an enclosing
    /// binder, and otherwise reports the first variable that is not.
    /// References are accepted as they are.
    pub fn check_unbounds(&self) -> (res: Result<(), String>)
        ensures
            match first_unbound(self@, Set::empty()) {
                None => res is Ok,
                Some(n) => res is Err && res->Err_0@ == unbound_message(n),
            },
    {
        let mut scope = VarScope::default();
        assert(scope.bound() =~= Set::<Seq<char>>::empty());
        self.check_in(&mut scope)
    }

    /// Checks below the binders that `scope` counts. On success `scope` is
    /// left as it was found.
    fn check_in(&self, scope: &mut VarScope) -> (res: Result<(), String>)
        ensures
            match first_unbound(self@, old(scope).bound()) {
                None => res is Ok && final(scope)@ == old(scope)@,
                Some(n) => res is Err && res->Err_0@ == unbound_message(n),
            },
        decreases self,
    {
        match self {
            Term::Lam { nam, bod } => {
                scope.push(nam);
                assert(scope.bound() =~= bind(old(scope).bound(), binder_of(*nam)));
                match bod.check_in(scope) {
                    Ok(()) => {},
                    Err(msg) => {
                        return Err(msg);
                    },
                }
                scope.pop(nam);
                assert(scope@ =~= old(scope)@);
            },
            Term::Var { nam } => {
                if !scope.has_var(nam) {
                    let mut msg = String::from_str("Unbound variable '");
                    msg.append(nam.as_str());
                    msg.append("'");
                    return Err(msg);
                }
            },
            Term::App { fun, arg } => {
                match fun.check_in(scope) {
                    Ok(()) => {},
                    Err(msg) => {
                        return Err(msg);
                    },
                }
                match arg.check_in(scope) {
                    Ok(()) => {},
                    Err(msg) => {
                        return Err(msg);
                    },
                }
            },
            Term::Ref { .. } => {},
        }
        Ok(())
    }
}

/// The book in which every body has been resolved against the names that
/// `book` defines.
pub open spec fn resolve_all(book: Map<Seq<char>, Expr>) -> Map<Seq<char>, Expr> {
    book.map_values(|body: Expr| resolve(body, book.dom(), Set::empty()))
}

/// The message that reports a book without a `main` definition.
pub open spec fn missing_main_message() -> Seq<char> {
    "Program doesn't have 'main' definition"@
}

impl Book {
    /// The set of the names that this book defines.
    pub fn def_names(&self) -> (res: StringHashSet)
        ensures
            res@ == self@.dom(),
    {
        let mut names = StringHashSet::new();
        let mut i: usize = 0;
        while i < self.defs.len()
            invariant
                i <= self.defs.len(),
                forall|n: Seq<char>| names@.contains(n) <==> defines(self.defs@.take(i as int), n),
            decreases self.defs.len() - i,
        {
            let ghost seen = names@;
            names.insert(self.defs[i].nam.clone());
            proof {
                let prefix = self.defs@.take(i as int);
                let longer = self.defs@.take(i + 1);
                assert forall|n: Seq<char>| names@.contains(n) <==> defines(longer, n) by {
                    if seen.contains(n) {
                        let k = position_of(prefix, n);
                        assert(longer[k].nam@ == n);
                    }
                    if n == self.defs[i as int].nam@ {
                        assert(longer[i as int].nam@ == n);
                    }
                    if defines(longer, n) {
                        let k = position_of(longer, n);
                        if k < i {
                            assert(prefix[k].nam@ == n);
                        }
                    }
                }
            }
            i = i + 1;
        }
        proof {
            assert(self.defs@.take(i as int) =~= self.defs@);
            assert(names@ =~= self@.dom());
        }
        names
    }

    /// Resolves the body of every definition against the names that this book
    /// defines. A reference may point to any definition, the one that holds it
    /// included.
    pub fn resolve_refs(&mut self)
        ensures
            final(self)@ == resolve_all(old(self)@),
    {
        proof {
            use_type_invariant(&*self);
        }
        let names = self.def_names();
        let mut defs: Vec<Definition> = Vec::new();
        std::mem::swap(&mut defs, &mut self.defs);
        let ghost before = defs@;
        let mut i: usize = 0;
        while i < defs.len()
            invariant
                i <= defs.len(),
                defs.len() == before.len(),
                forall|k: int| 0 <= k < defs.len() ==> (#[trigger] defs[k]).nam@ == before[k].nam@,
                forall|k: int|
                    0 <= k < i ==> (#[trigger] defs[k]).bod@ == resolve(
                        before[k].bod@,
                        names@,
                        Set::empty(),
                    ),
                forall|k: int| i <= k < defs.len() ==> (#[trigger] defs[k]).bod@ == before[k].bod@,
            decreases defs.len() - i,
        {
            defs[i].bod.resolve_refs(&names);
            i = i + 1;
        }
        proof {
            assert(distinct_names(defs@));
            assert forall|n: Seq<char>| defines(before, n) <==> defines(defs@, n) by {
                if defines(before, n) {
                    let k = position_of(before, n);
                    assert(defs@[k].nam@ == n);
                }
                if defines(defs@, n) {
                    let k = position_of(defs@, n);
                    assert(before[k].nam@ == n);
                }
            }
            assert forall|n: Seq<char>| #[trigger] bodies(defs@).contains_key(n) implies bodies(
                defs@,
            )[n] == resolve_all(bodies(before))[n] by {
                let k = position_of(defs@, n);
                lemma_bodies_at(defs@, k);
                assert(before[k].nam@ == n);
                lemma_bodies_at(before, k);
            }
            assert(bodies(defs@) =~= resolve_all(bodies(before)));
        }
        self.defs = defs;
    }

    /// Accepts this book if no body holds an unbound variable, and otherwise
    /// reports the first unbound variable of one of the bodies that hold one.
    pub fn check_unbounds(&mut self) -> (res: Result<(), String>)
        ensures
            *final(self) == *old(self),
            match res {
                Ok(()) => forall|n: Seq<char>|
                    old(self)@.contains_key(n) ==> first_unbound(#[trigger] old(self)@[n], Set::empty())
                        is None,
                Err(msg) => exists|n: Seq<char>|
                    old(self)@.contains_key(n) && first_unbound(#[trigger] old(self)@[n], Set::empty())
                        is Some && msg@ == unbound_message(
                        first_unbound(old(self)@[n], Set::empty())->Some_0,
                    ),
            },
    {
        proof {
            use_type_invariant(&*self);
        }
        let mut i: usize = 0;
        while i < self.defs.len()
            invariant
                i <= self.defs.len(),
                *self == *old(self),
                distinct_names(self.defs@),
                forall|k: int|
                    0 <= k < i ==> first_unbound((#[trigger] self.defs[k]).bod@, Set::empty())
                        is None,
            decreases self.defs.len() - i,
        {
            match self.defs[i].bod.check_unbounds() {
                Ok(()) => {},
                Err(msg) => {
                    proof {
                        lemma_bodies_at(self.defs@, i as int);
                        let n = self.defs[i as int].nam@;
                        assert(self@.contains_key(n) && first_unbound(self@[n], Set::empty())
                            is Some);
                    }
                    return Err(msg);
                },
            }
            i = i + 1;
        }
        proof {
            assert forall|n: Seq<char>| self@.contains_key(n) implies first_unbound(
                #[trigger] self@[n],
                Set::empty(),
            ) is None by {
                let k = position_of(self.defs@, n);
                lemma_bodies_at(self.defs@, k);
            }
        }
        Ok(())
    }

    /// Accepts this book if it defines `main`, the term that evaluation starts
    /// from.
    pub fn check_has_main(&self) -> (res: Result<(), String>)
        ensures
            match res {
                Ok(()) => self@.contains_key("main"@),
                Err(msg) => !self@.contains_key("main"@) && msg@ == missing_main_message(),
            },
    {
        let main = String::from_str("main");
        match self.get(&main) {
            Some(_) => Ok(()),
            None => Err(String::from_str("Program doesn't have 'main' definition")),
        }
    }

    /// Validates this book and hands out the term that evaluation starts
    /// from: a copy of the body of `main`.
    ///
    /// The passes run in a fixed order. A book without `main` is rejected
    /// first, and is then left as it was. Otherwise every body is resolved,
    /// and the book is rejected if a body still holds an unbound variable.
    pub fn validate(&mut self) -> (res: Result<Term, String>)
        ensures
            !old(self)@.contains_key("main"@) ==> final(self)@ == old(self)@ && res is Err
                && res->Err_0@ == missing_main_message(),
            old(self)@.contains_key("main"@) ==> final(self)@ == resolve_all(old(self)@),
            match res {
                Ok(main) => {
                    &&& final(self)@.contains_key("main"@)
                    &&& main@ == final(self)@["main"@]
                    &&& forall|n: Seq<char>|
                        final(self)@.contains_key(n) ==> first_unbound(
                            #[trigger] final(self)@[n],
                            Set::empty(),
                        ) is None
                },
                Err(msg) => old(self)@.contains_key("main"@) ==> exists|n: Seq<char>|
                    final(self)@.contains_key(n) && first_unbound(
                        #[trigger] final(self)@[n],
                        Set::empty(),
                    ) is Some && msg@ == unbound_message(
                        first_unbound(final(self)@[n], Set::empty())->Some_0,
                    ),
            },
    {
        match self.check_has_main() {
            Ok(()) => {},
            Err(msg) => {
                return Err(msg);
            },
        }
        self.resolve_refs();
        assert(self@.dom() =~= old(self)@.dom());
        match self.check_unbounds() {
            Ok(()) => {},
            Err(msg) => {
                return Err(msg);
            },
        }
        let main = String::from_str("main");
        match self.get(&main) {
            Some(def) => Ok(def.bod.clone()),
            None => Err(String::from_str("Program doesn't have 'main' definition")),
        }
    }
}

} // verus!
