use lamcalc::ast::{Book, Definition, Term};
use lamcalc::parser::{parse_book, parse_term};
use lamcalc::passes::VarScope;

fn var(name: &str) -> Term {
    Term::Var { nam: name.to_string() }
}

fn lam(name: Option<&str>, body: Term) -> Term {
    Term::Lam { nam: name.map(|n| n.to_string()), bod: Box::new(body) }
}

fn app(fun: Term, arg: Term) -> Term {
    Term::App { fun: Box::new(fun), arg: Box::new(arg) }
}

fn book_with(names: &[&str]) -> Book {
    let mut book = Book::new();
    for name in names {
        book.insert(Definition { nam: name.to_string(), bod: lam(Some("x"), var("x")) });
    }
    book
}

#[test]
fn scope_counts_binders_of_the_same_name() {
    let x = Some("x".to_string());
    let mut scope = VarScope::default();
    assert!(!scope.has_var(&"x".to_string()));
    scope.push(&x);
    scope.push(&x);
    assert!(scope.has_var(&"x".to_string()));
    scope.pop(&x);
    assert!(scope.has_var(&"x".to_string()));
    scope.pop(&x);
    assert!(!scope.has_var(&"x".to_string()));
}

#[test]
fn scope_ignores_erased_binders() {
    let mut scope = VarScope::default();
    scope.push(&None);
    assert!(!scope.has_var(&"x".to_string()));
    scope.pop(&None);
    scope.push(&Some("y".to_string()));
    assert!(scope.has_var(&"y".to_string()));
    assert!(!scope.has_var(&"x".to_string()));
}

#[test]
fn scope_pops_out_of_order() {
    let mut scope = VarScope::default();
    scope.push(&Some("a".to_string()));
    scope.push(&Some("b".to_string()));
    scope.pop(&Some("a".to_string()));
    assert!(!scope.has_var(&"a".to_string()));
    assert!(scope.has_var(&"b".to_string()));
}

#[test]
fn free_variable_that_names_a_definition_becomes_a_reference() {
    let names = book_with(&["id"]).def_names();
    let mut term = app(var("id"), var("y"));
    term.resolve_refs(&names);
    match term {
        Term::App { fun, arg } => {
            assert!(matches!(*fun, Term::Ref { ref nam } if nam == "id"));
            assert!(matches!(*arg, Term::Var { ref nam } if nam == "y"));
        }
        _ => panic!("the application stays an application"),
    }
}

#[test]
fn bound_variable_is_not_resolved() {
    let names = book_with(&["id"]).def_names();
    let mut term = lam(Some("id"), var("id"));
    term.resolve_refs(&names);
    match term {
        Term::Lam { nam, bod } => {
            assert_eq!(nam, Some("id".to_string()));
            assert!(matches!(*bod, Term::Var { .. }));
        }
        _ => panic!("the function stays a function"),
    }
}

#[test]
fn erased_binder_binds_nothing() {
    let names = book_with(&["id"]).def_names();
    let mut term = lam(None, var("id"));
    term.resolve_refs(&names);
    match term {
        Term::Lam { nam, bod } => {
            assert_eq!(nam, None);
            assert!(matches!(*bod, Term::Ref { .. }));
        }
        _ => panic!("the function stays a function"),
    }
}

#[test]
fn leaving_a_binder_ends_its_scope() {
    let names = book_with(&["id"]).def_names();
    // (λid id id): the first `id` is bound, the second is free.
    let mut term = app(lam(Some("id"), var("id")), var("id"));
    term.resolve_refs(&names);
    match term {
        Term::App { fun, arg } => {
            match *fun {
                Term::Lam { bod, .. } => assert!(matches!(*bod, Term::Var { .. })),
                _ => panic!("the function stays a function"),
            }
            assert!(matches!(*arg, Term::Ref { .. }));
        }
        _ => panic!("the application stays an application"),
    }
}

#[test]
fn inner_binder_of_the_same_name_keeps_the_outer_one_alive() {
    let names = book_with(&["x"]).def_names();
    // λx (λx x x): both occurrences are bound, the second by the outer binder.
    let mut term = lam(Some("x"), app(lam(Some("x"), var("x")), var("x")));
    term.resolve_refs(&names);
    match term {
        Term::Lam { bod, .. } => match *bod {
            Term::App { fun, arg } => {
                assert!(matches!(*arg, Term::Var { .. }));
                match *fun {
                    Term::Lam { bod, .. } => assert!(matches!(*bod, Term::Var { .. })),
                    _ => panic!("the inner function stays a function"),
                }
            }
            _ => panic!("the body stays an application"),
        },
        _ => panic!("the function stays a function"),
    }
}

#[test]
fn book_resolves_every_body_against_all_names() {
    let mut book = parse_book("a = b\nb = a\nc = λa (a c d)").unwrap();
    book.resolve_refs();
    let a = &book.get(&"a".to_string()).unwrap().bod;
    assert!(matches!(a, Term::Ref { nam } if nam == "b"));
    let b = &book.get(&"b".to_string()).unwrap().bod;
    assert!(matches!(b, Term::Ref { nam } if nam == "a"));
    let c = &book.get(&"c".to_string()).unwrap().bod;
    match c {
        Term::Lam { bod, .. } => match &**bod {
            Term::App { fun, arg } => {
                assert!(matches!(&**arg, Term::Var { nam } if nam == "d"));
                match &**fun {
                    Term::App { fun, arg } => {
                        assert!(matches!(&**fun, Term::Var { nam } if nam == "a"));
                        assert!(matches!(&**arg, Term::Ref { nam } if nam == "c"));
                    }
                    _ => panic!("the spine stays"),
                }
            }
            _ => panic!("the body stays an application"),
        },
        _ => panic!("the function stays a function"),
    }
    assert!(book.is_closed());
}

#[test]
fn check_accepts_bound_variables_and_references() {
    assert_eq!(parse_term("λx λy (x y)").unwrap().check_unbounds(), Ok(()));
    let reference = Term::Ref { nam: "nowhere".to_string() };
    assert_eq!(reference.check_unbounds(), Ok(()));
    assert_eq!(lam(Some("x"), app(var("x"), reference)).check_unbounds(), Ok(()));
}

#[test]
fn check_reports_the_first_unbound_variable() {
    let term = parse_term("(a b)").unwrap();
    assert_eq!(term.check_unbounds(), Err("Unbound variable 'a'".to_string()));
    let term = parse_term("λx (x y z)").unwrap();
    assert_eq!(term.check_unbounds(), Err("Unbound variable 'y'".to_string()));
    let term = parse_term("(λx x x)").unwrap();
    assert_eq!(term.check_unbounds(), Err("Unbound variable 'x'".to_string()));
}

#[test]
fn check_treats_the_name_of_an_erased_binder_as_unbound() {
    let term = lam(None, var("x"));
    assert_eq!(term.check_unbounds(), Err("Unbound variable 'x'".to_string()));
}

#[test]
fn book_check_passes_after_resolution() {
    let mut book = parse_book("id = λx x\nmain = (id id)").unwrap();
    assert!(book.check_unbounds().is_err());
    book.resolve_refs();
    assert_eq!(book.check_unbounds(), Ok(()));
}

#[test]
fn book_check_reports_an_unbound_variable_of_some_body() {
    let mut book = parse_book("a = λx x\nb = λx y").unwrap();
    book.resolve_refs();
    assert_eq!(book.check_unbounds(), Err("Unbound variable 'y'".to_string()));
}

#[test]
fn has_main_accepts_a_book_with_main() {
    let book = parse_book("main = λx x").unwrap();
    assert_eq!(book.check_has_main(), Ok(()));
}

#[test]
fn inserting_a_name_again_replaces_the_definition() {
    let mut book = Book::new();
    book.insert(Definition { nam: "a".to_string(), bod: var("first") });
    book.insert(Definition { nam: "b".to_string(), bod: var("other") });
    book.insert(Definition { nam: "a".to_string(), bod: var("second") });
    assert_eq!(book.get(&"a".to_string()).unwrap().bod.to_string(), "second");
    assert_eq!(book.get(&"b".to_string()).unwrap().bod.to_string(), "other");
    assert!(book.get(&"c".to_string()).is_none());
}

#[test]
fn terms_render_as_source_text() {
    assert_eq!(lam(Some("x"), var("x")).to_string(), "λx x");
    assert_eq!(lam(None, var("x")).to_string(), "λ* x");
    assert_eq!(app(app(var("f"), var("a")), var("b")).to_string(), "((f a) b)");
    assert_eq!(Term::Ref { nam: "main".to_string() }.to_string(), "main");
    assert_eq!(Term::default().to_string(), "");
}

#[test]
fn clone_is_a_deep_copy() {
    let term = lam(Some("x"), app(var("x"), Term::Ref { nam: "r".to_string() }));
    let copy = term.clone();
    assert_eq!(copy.to_string(), term.to_string());
    assert_eq!(copy.to_string(), "λx (x r)");
}
