use lamcalc::ast::{Book, Term};
use lamcalc::parser::parse_book;
use lamcalc::reduce::{Outcome, Step, Stop};

fn load(code: &str) -> Book {
    let mut book = parse_book(code).expect("the book parses");
    book.check_has_main().expect("the book has a main");
    book.resolve_refs();
    book.check_unbounds().expect("no variable is unbound");
    assert!(book.is_closed());
    book
}

fn main_of(book: &Book) -> Term {
    book.get(&"main".to_string()).expect("main is defined").bod.clone()
}

#[test]
fn identity_applied_to_identity_reduces_to_identity() {
    let book = load("id = λx x\nmain = (id id)");
    let mut main = main_of(&book);
    let outcome = main.reduce(&book, &Stop::Nf, &Step::NormalOrder, 1000);
    assert_eq!(main.to_string(), "λx x");
    assert_eq!(outcome, Outcome::NoRedex);
}

#[test]
fn unbound_variable_in_main_is_reported() {
    let mut book = parse_book("main = x").unwrap();
    book.check_has_main().unwrap();
    book.resolve_refs();
    assert_eq!(book.check_unbounds(), Err("Unbound variable 'x'".to_string()));
}

#[test]
fn self_reference_runs_until_the_limit() {
    let book = load("loop = loop\nmain = loop");
    let mut main = main_of(&book);
    let outcome = main.reduce(&book, &Stop::Nf, &Step::NormalOrder, 1000);
    assert_eq!(outcome, Outcome::OutOfSteps);
    assert_eq!(main.to_string(), "loop");
    assert!(matches!(main, Term::Ref { .. }));
    let again = main.reduce(&book, &Stop::Nf, &Step::NormalOrder, 1);
    assert_eq!(again, Outcome::OutOfSteps);
    let steps = main.reduce_stepped(&book, &Stop::Nf, &Step::NormalOrder, 7);
    assert_eq!(steps.len(), 8);
}

#[test]
fn constant_function_drops_its_second_argument() {
    let book = load("k = λx λy x\nid = λx x\nmain = (k id id)");
    let mut main = main_of(&book);
    let outcome = main.reduce(&book, &Stop::Nf, &Step::NormalOrder, 1000);
    assert_eq!(main.to_string(), "λx x");
    assert_eq!(outcome, Outcome::NoRedex);
}

#[test]
fn book_without_main_is_rejected() {
    let book = parse_book("id = λx x").unwrap();
    assert_eq!(
        book.check_has_main(),
        Err("Program doesn't have 'main' definition".to_string())
    );
    let empty = parse_book("").unwrap();
    assert_eq!(
        empty.check_has_main(),
        Err("Program doesn't have 'main' definition".to_string())
    );
}

#[test]
fn missing_main_is_found_before_unbound_variables() {
    let book = parse_book("f = y").unwrap();
    assert!(book.check_has_main().is_err());
}

#[test]
fn stepped_reduction_records_unfold_then_application() {
    let book = load("id = λx x\nmain = (id id)");
    let mut main = main_of(&book);
    let steps = main.reduce_stepped(&book, &Stop::Nf, &Step::NormalOrder, 1000);
    let shown: Vec<String> = steps.iter().map(|t| t.to_string()).collect();
    assert_eq!(shown, vec!["(id id)", "(λx x id)", "id", "λx x"]);
    assert_eq!(main.to_string(), "λx x");
}

#[test]
fn stepped_reduction_to_weak_head_normal_form_has_three_entries() {
    let book = load("id = λx x\nmain = (id id)");
    let mut main = main_of(&book);
    let steps = main.reduce_stepped(&book, &Stop::Whnf, &Step::NormalOrder, 1000);
    let shown: Vec<String> = steps.iter().map(|t| t.to_string()).collect();
    assert_eq!(shown, vec!["(id id)", "(λx x id)", "id"]);
}

#[test]
fn validation_hands_out_the_resolved_main() {
    let mut book = parse_book("id = λx x\nmain = (id id)").unwrap();
    let main = book.validate().unwrap();
    assert_eq!(main.to_string(), "(id id)");
    match main {
        Term::App { fun, arg } => {
            assert!(matches!(*fun, Term::Ref { .. }));
            assert!(matches!(*arg, Term::Ref { .. }));
        }
        _ => panic!("main is an application"),
    }
    assert!(book.is_closed());
}

#[test]
fn validation_rejects_a_missing_main_before_anything_else() {
    let mut book = parse_book("id = λx x\nf = (id y)").unwrap();
    assert_eq!(
        book.validate().err(),
        Some("Program doesn't have 'main' definition".to_string())
    );
    // Nothing was resolved: `id` in `f` is still a variable.
    match &book.get(&"f".to_string()).unwrap().bod {
        Term::App { fun, .. } => assert!(matches!(&**fun, Term::Var { .. })),
        _ => panic!("f is an application"),
    }
}

#[test]
fn validation_rejects_an_unbound_variable() {
    let mut book = parse_book("main = λx (x y)").unwrap();
    assert_eq!(book.validate().err(), Some("Unbound variable 'y'".to_string()));
}
