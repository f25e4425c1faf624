//! Terms, definitions and the book that holds them, with their mathematical
//! models.
use vstd::prelude::*;
use vstd::string::StringExecFns;

verus! {

/// Names of binders, variables and definitions.
pub type Name = String;

/// A node of the expression tree. Every node owns its children.
#[allow(inconsistent_fields)]
#[derive(Debug)]
pub enum Term {
    /// A function. A binder of `None` is erased: the body cannot refer to it.
    Lam { nam: Option<Name>, bod: Box<Term> },
    /// A variable: bound by an enclosing `Lam`, or free.
    Var { nam: Name },
    /// The application of `fun` to `arg`.
    App { fun: Box<Term>, arg: Box<Term> },
    /// A reference to the definition called `nam`.
    Ref { nam: Name },
}

/// The mathematical model of a [`Term`]: the same tree, with names as
/// sequences of characters.
#[allow(inconsistent_fields)]
pub enum Expr {
    Lam { nam: Option<Seq<char>>, bod: Box<Expr> },
    Var { nam: Seq<char> },
    App { fun: Box<Expr>, arg: Box<Expr> },
    Ref { nam: Seq<char> },
}

/// The model of an optional binder.
pub open spec fn binder_of(nam: Option<Name>) -> Option<Seq<char>> {
    match nam {
        Some(n) => Some(n@),
        None => None,
    }
}

/// The model of a term, node by node.
pub open spec fn expr_of(t: Term) -> Expr
    decreases t,
{
    match t {
        Term::Lam { nam, bod } => Expr::Lam { nam: binder_of(nam), bod: Box::new(expr_of(*bod)) },
        Term::Var { nam } => Expr::Var { nam: nam@ },
        Term::App { fun, arg } => Expr::App {
            fun: Box::new(expr_of(*fun)),
            arg: Box::new(expr_of(*arg)),
        },
        Term::Ref { nam } => Expr::Ref { nam: nam@ },
    }
}

impl View for Term {
    type V = Expr;

    open spec fn view(&self) -> Expr {
        expr_of(*self)
    }
}

/// A step from a node of an expression to one of its children.
pub enum Branch {
    /// From a function to its body.
    Body,
    /// From an application to its function.
    Fun,
    /// From an application to its argument.
    Arg,
}

/// The child of `t` along `branch`, if `t` has such a child.
pub open spec fn child(t: Expr, branch: Branch) -> Option<Expr> {
    match (t, branch) {
        (Expr::Lam { nam, bod }, Branch::Body) => Some(*bod),
        (Expr::App { fun, arg }, Branch::Fun) => Some(*fun),
        (Expr::App { fun, arg }, Branch::Arg) => Some(*arg),
        _ => None,
    }
}

/// The node of `t` that `path` leads to from the root, if it leads to one.
pub open spec fn subterm(t: Expr, path: Seq<Branch>) -> Option<Expr>
    decreases path.len(),
{
    if path.len() == 0 {
        Some(t)
    } else {
        match child(t, path[0]) {
            Some(c) => subterm(c, path.drop_first()),
            None => None,
        }
    }
}

/// The source text of a binder: its name, or `*` where it is erased.
pub open spec fn binder_text(nam: Option<Seq<char>>) -> Seq<char> {
    match nam {
        Some(n) => n,
        None => seq!['*'],
    }
}

/// The source text of an expression: `λn b` for a function (`λ* b` when the
/// binder is erased), the bare name for a variable or a reference, and
/// `(f a)` for an application, one pair of parentheses per application.
pub open spec fn render(t: Expr) -> Seq<char>
    decreases t,
{
    match t {
        Expr::Lam { nam, bod } => seq!['λ'] + binder_text(nam) + seq![' '] + render(*bod),
        Expr::Var { nam } => nam,
        Expr::App { fun, arg } => seq!['('] + render(*fun) + seq![' '] + render(*arg) + seq![')'],
        Expr::Ref { nam } => nam,
    }
}

impl Clone for Term {
    /// A deep copy: a fresh tree equal to this one.
    fn clone(&self) -> (res: Self)
        ensures
            res == *self,
        decreases self,
    {
        match self {
            Term::Lam { nam, bod } => Term::Lam {
                nam: match nam {
                    Some(n) => Some(n.clone()),
                    None => None,
                },
                bod: Box::new((&**bod).clone()),
            },
            Term::Var { nam } => Term::Var { nam: nam.clone() },
            Term::App { fun, arg } => Term::App {
                fun: Box::new((&**fun).clone()),
                arg: Box::new((&**arg).clone()),
            },
            Term::Ref { nam } => Term::Ref { nam: nam.clone() },
        }
    }
}

impl Default for Term {
    /// The variable with the empty name.
    fn default() -> (res: Self)
        ensures
            res@ == (Expr::Var { nam: Seq::empty() }),
    {
        Term::Var { nam: String::new() }
    }
}

impl Term {
    /// Appends the source text of this term to `out`.
    fn write_to(&self, out: &mut String)
        ensures
            final(out)@ == old(out)@ + render(self@),
        decreases self,
    {
        proof {
            reveal_strlit("λ");
            reveal_strlit("*");
            reveal_strlit(" ");
            reveal_strlit("(");
            reveal_strlit(")");
        }
        match self {
            Term::Lam { nam, bod } => {
                out.append("λ");
                match nam {
                    Some(n) => out.append(n.as_str()),
                    None => out.append("*"),
                }
                out.append(" ");
                bod.write_to(out);
            },
            Term::Var { nam } => {
                out.append(nam.as_str());
            },
            Term::App { fun, arg } => {
                out.append("(");
                fun.write_to(out);
                out.append(" ");
                arg.write_to(out);
                out.append(")");
            },
            Term::Ref { nam } => {
                out.append(nam.as_str());
            },
        }
    }

    /// The source text of this term.
    pub fn to_string(&self) -> (s: String)
        ensures
            s@ == render(self@),
    {
        let mut out = String::new();
        self.write_to(&mut out);
        out
    }
}

/// A named term: the right-hand side `bod` that the name `nam` stands for.
#[derive(Debug)]
pub struct Definition {
    pub nam: Name,
    pub bod: Term,
}

impl Clone for Definition {
    fn clone(&self) -> (res: Self)
        ensures
            res == *self,
    {
        Definition { nam: self.nam.clone(), bod: self.bod.clone() }
    }
}

/// The definitions of a program, by name. A name has at most one definition:
/// defining it again replaces the earlier one.
#[derive(Debug)]
pub struct Book {
    pub(crate) defs: Vec<Definition>,
}

/// Whether no two of `defs` share a name.
pub(crate) open spec fn distinct_names(defs: Seq<Definition>) -> bool {
    forall|i: int, j: int| 0 <= i < j < defs.len() ==> defs[i].nam@ != defs[j].nam@
}

/// Whether one of `defs` is called `nam`.
pub(crate) open spec fn defines(defs: Seq<Definition>, nam: Seq<char>) -> bool {
    exists|i: int| 0 <= i < defs.len() && #[trigger] defs[i].nam@ == nam
}

/// The position in `defs` of a definition called `nam`.
pub(crate) open spec fn position_of(defs: Seq<Definition>, nam: Seq<char>) -> int {
    choose|i: int| 0 <= i < defs.len() && #[trigger] defs[i].nam@ == nam
}

/// The map from each defined name to the model of its body.
pub(crate) open spec fn bodies(defs: Seq<Definition>) -> Map<Seq<char>, Expr> {
    Map::new(|nam: Seq<char>| defines(defs, nam), |nam: Seq<char>| defs[position_of(defs, nam)].bod@)
}

/// With distinct names, each definition is what its name maps to.
pub(crate) proof fn lemma_bodies_at(defs: Seq<Definition>, i: int)
    requires
        distinct_names(defs),
        0 <= i < defs.len(),
    ensures
        bodies(defs).contains_key(defs[i].nam@),
        bodies(defs)[defs[i].nam@] == defs[i].bod@,
        position_of(defs, defs[i].nam@) == i,
{
    let k = position_of(defs, defs[i].nam@);
    assert(defs[i].nam@ == defs[i].nam@);
    assert(0 <= k < defs.len() && defs[k].nam@ == defs[i].nam@);
    if k < i {
        assert(defs[k].nam@ != defs[i].nam@);
    } else if i < k {
        assert(defs[i].nam@ != defs[k].nam@);
    }
}

impl View for Book {
    type V = Map<Seq<char>, Expr>;

    /// The model of a book: the map from each defined name to the model of
    /// its body.
    open(crate) spec fn view(&self) -> Map<Seq<char>, Expr> {
        bodies(self.defs@)
    }
}

impl Book {
    #[verifier::type_invariant]
    pub(crate) open spec fn well_formed(&self) -> bool {
        distinct_names(self.defs@)
    }

    /// The book without definitions.
    pub fn new() -> (res: Self)
        ensures
            res@ == Map::<Seq<char>, Expr>::empty(),
    {
        let res = Book { defs: Vec::new() };
        assert(res@ =~= Map::<Seq<char>, Expr>::empty());
        res
    }

    /// The position of the definition called `nam`, if there is one.
    pub(crate) fn find(defs: &Vec<Definition>, nam: &Name) -> (res: Option<usize>)
        ensures
            match res {
                Some(i) => i < defs.len() && defs[i as int].nam@ == nam@,
                None => !defines(defs@, nam@),
            },
    {
        let mut i: usize = 0;
        while i < defs.len()
            invariant
                i <= defs.len(),
                forall|k: int| 0 <= k < i ==> defs[k].nam@ != nam@,
            decreases defs.len() - i,
        {
            if defs[i].nam == *nam {
                return Some(i);
            }
            i = i + 1;
        }
        None
    }

    /// Adds `def` under its name, in place of any earlier definition of that
    /// name.
    pub fn insert(&mut self, def: Definition)
        ensures
            final(self)@ == old(self)@.insert(def.nam@, def.bod@),
    {
        proof {
            use_type_invariant(&*self);
        }
        let mut defs: Vec<Definition> = Vec::new();
        std::mem::swap(&mut defs, &mut self.defs);
        let ghost before = defs@;
        match Self::find(&defs, &def.nam) {
            Some(i) => {
                defs[i] = def;
                proof {
                    assert forall|n: Seq<char>| defines(before, n) <==> defines(defs@, n) by {
                        if defines(before, n) {
                            let k = position_of(before, n);
                            assert(defs@[k].nam@ == n);
                        }
                        if defines(defs@, n) {
                            let k = position_of(defs@, n);
                            assert(before[k].nam@ == n);
                        }
                    }
                }
            },
            None => {
                defs.push(def);
                proof {
                    assert forall|n: Seq<char>| (defines(before, n) || n == def.nam@) <==> defines(
                        defs@,
                        n,
                    ) by {
                        if defines(before, n) {
                            let k = position_of(before, n);
                            assert(defs@[k].nam@ == n);
                        }
                        if n == def.nam@ {
                            assert(defs@[before.len() as int].nam@ == n);
                        }
                        if defines(defs@, n) {
                            let k = position_of(defs@, n);
                            if k < before.len() {
                                assert(before[k].nam@ == n);
                            }
                        }
                    }
                }
            },
        }
        proof {
            assert(distinct_names(defs@));
            assert forall|n: Seq<char>| #[trigger] bodies(defs@).contains_key(n) implies bodies(
                defs@,
            )[n] == bodies(before).insert(def.nam@, def.bod@)[n] by {
                let k = position_of(defs@, n);
                lemma_bodies_at(defs@, k);
                if n != def.nam@ {
                    assert(before[k].nam@ == n);
                    lemma_bodies_at(before, k);
                }
            }
            assert(bodies(defs@) =~= bodies(before).insert(def.nam@, def.bod@));
        }
        self.defs = defs;
    }

    /// The definition called `nam`, if there is one.
    pub fn get(&self, nam: &Name) -> (res: Option<&Definition>)
        ensures
            match res {
                Some(def) => self@.contains_key(nam@) && def.nam@ == nam@ && def.bod@ == self@[nam@],
                None => !self@.contains_key(nam@),
            },
    {
        proof {
            use_type_invariant(self);
        }
        match Self::find(&self.defs, nam) {
            Some(i) => {
                proof {
                    lemma_bodies_at(self.defs@, i as int);
                }
                Some(&self.defs[i])
            },
            None => None,
        }
    }
}

} // verus!
