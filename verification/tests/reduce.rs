use lamcalc::ast::{Book, Definition, Term};
use lamcalc::parser::{parse_book, parse_term};
use lamcalc::reduce::{step_fn, stop_fn, Form, Outcome, ReductionOrder, Step, Stop};

fn resolved(code: &str) -> Book {
    let mut book = parse_book(code).unwrap();
    book.resolve_refs();
    book
}

fn term_in(book: &Book, code: &str) -> Term {
    let mut term = parse_term(code).unwrap();
    term.resolve_refs(&book.def_names());
    assert!(term.refs_defined(&book.def_names()));
    term
}

#[test]
fn substitution_replaces_free_occurrences() {
    let mut term = parse_term("(x (y x))").unwrap();
    term.subst(&"x".to_string(), &parse_term("λz z").unwrap());
    assert_eq!(term.to_string(), "(λz z (y λz z))");
}

#[test]
fn substitution_stops_at_a_binder_of_the_same_name() {
    let mut term = parse_term("(x λx (x y))").unwrap();
    term.subst(&"x".to_string(), &parse_term("v").unwrap());
    assert_eq!(term.to_string(), "(v λx (x y))");
}

#[test]
fn substitution_goes_under_other_and_erased_binders() {
    let mut term = parse_term("λy λ* x").unwrap();
    term.subst(&"x".to_string(), &parse_term("v").unwrap());
    assert_eq!(term.to_string(), "λy λ* v");
}

#[test]
fn substitution_does_not_rename_binders() {
    let mut term = parse_term("λy x").unwrap();
    term.subst(&"x".to_string(), &parse_term("y").unwrap());
    assert_eq!(term.to_string(), "λy y");
}

#[test]
fn substitution_leaves_references_alone() {
    let mut term = Term::Ref { nam: "x".to_string() };
    term.subst(&"x".to_string(), &parse_term("v").unwrap());
    assert!(matches!(term, Term::Ref { ref nam } if nam == "x"));
}

#[test]
fn weak_head_normal_form_is_anything_but_an_application() {
    assert!(parse_term("λx (x x)").unwrap().stop_whnf());
    assert!(parse_term("x").unwrap().stop_whnf());
    assert!(Term::Ref { nam: "r".to_string() }.stop_whnf());
    assert!(!parse_term("(x y)").unwrap().stop_whnf());
}

#[test]
fn normal_form_never_stops_early() {
    assert!(!parse_term("λx x").unwrap().stop_nf());
    assert!(!parse_term("(x y)").unwrap().stop_nf());
}

#[test]
fn step_contracts_the_outermost_redex() {
    let book = Book::new();
    let mut term = term_in(&book, "(λx (x x) (λy y z))");
    assert!(term.normal_order_step(&book));
    assert_eq!(term.to_string(), "((λy y z) (λy y z))");
    assert!(term.normal_order_step(&book));
    assert_eq!(term.to_string(), "(z (λy y z))");
    assert!(!term.normal_order_step(&book));
    assert_eq!(term.to_string(), "(z (λy y z))");
}

#[test]
fn step_with_an_erased_binder_drops_the_argument() {
    let book = Book::new();
    let mut term = term_in(&book, "(λ* a b)");
    assert!(term.normal_order_step(&book));
    assert_eq!(term.to_string(), "a");
}

#[test]
fn step_goes_into_the_body_of_a_function() {
    let book = Book::new();
    let mut term = term_in(&book, "λa (λx x a)");
    assert!(term.normal_order_step(&book));
    assert_eq!(term.to_string(), "λa a");
    assert!(!term.normal_order_step(&book));
}

#[test]
fn step_tries_the_function_before_the_argument() {
    let book = Book::new();
    let mut term = term_in(&book, "((λx x a) (λy y b) c)");
    assert!(term.normal_order_step(&book));
    assert_eq!(term.to_string(), "((a (λy y b)) c)");
    // The application of the variable `a` is stuck as a whole: the step does
    // not look into its argument.
    assert!(!term.normal_order_step(&book));
    assert_eq!(term.to_string(), "((a (λy y b)) c)");
}

#[test]
fn step_falls_back_to_the_argument() {
    let book = Book::new();
    let mut term = term_in(&book, "((a b) (λy y c))");
    assert!(term.normal_order_step(&book));
    assert_eq!(term.to_string(), "((a b) c)");
    assert!(!term.normal_order_step(&book));
}

#[test]
fn step_on_a_variable_is_stuck() {
    let book = Book::new();
    let mut term = term_in(&book, "x");
    assert!(!term.normal_order_step(&book));
    assert_eq!(term.to_string(), "x");
}

#[test]
fn step_unfolds_a_reference_in_two_phases() {
    let book = resolved("id = λx x");
    let mut term = term_in(&book, "(id a)");
    assert!(term.normal_order_step(&book));
    assert_eq!(term.to_string(), "(λx x a)");
    assert!(term.normal_order_step(&book));
    assert_eq!(term.to_string(), "a");
    let mut alone = term_in(&book, "id");
    assert!(alone.normal_order_step(&book));
    assert_eq!(alone.to_string(), "λx x");
}

#[test]
fn step_is_the_same_on_equal_terms() {
    let book = resolved("k = λx λy x\nid = λx x");
    let mut one = term_in(&book, "(k id (id k))");
    let mut two = one.clone();
    loop {
        let a = one.normal_order_step(&book);
        let b = two.normal_order_step(&book);
        assert_eq!(a, b);
        assert_eq!(one.to_string(), two.to_string());
        if !a {
            break;
        }
    }
    assert_eq!(one.to_string(), "λx x");
}

#[test]
fn argument_is_copied_once_for_each_occurrence() {
    let book = Book::new();
    let mut term = term_in(&book, "(λx ((x x) x) λy y)");
    assert!(term.normal_order_step(&book));
    assert_eq!(term.to_string(), "((λy y λy y) λy y)");
}

#[test]
fn reduce_stops_at_once_where_the_stop_rule_holds() {
    let book = resolved("id = λx x");
    let mut term = term_in(&book, "λa (id a)");
    let outcome = term.reduce(&book, &Stop::Whnf, &Step::NormalOrder, 100);
    assert_eq!(outcome, Outcome::Stopped);
    assert_eq!(term.to_string(), "λa (id a)");
    let steps = term.reduce_stepped(&book, &Stop::Whnf, &Step::NormalOrder, 100);
    assert_eq!(steps.len(), 1);
    assert_eq!(steps[0].to_string(), "λa (id a)");
}

#[test]
fn reduce_to_normal_form_goes_under_binders() {
    let book = resolved("id = λx x");
    let mut term = term_in(&book, "λa (id a)");
    let outcome = term.reduce(&book, &Stop::Nf, &Step::NormalOrder, 100);
    assert_eq!(outcome, Outcome::NoRedex);
    assert_eq!(term.to_string(), "λa a");
}

#[test]
fn reduce_reports_a_stuck_term() {
    let book = Book::new();
    let mut term = term_in(&book, "(x y)");
    let outcome = term.reduce(&book, &Stop::Whnf, &Step::NormalOrder, 100);
    assert_eq!(outcome, Outcome::NoRedex);
    assert_eq!(term.to_string(), "(x y)");
}

#[test]
fn reduce_with_no_steps_allowed_changes_nothing() {
    let book = resolved("id = λx x");
    let mut term = term_in(&book, "(id id)");
    assert_eq!(term.reduce(&book, &Stop::Nf, &Step::NormalOrder, 0), Outcome::OutOfSteps);
    assert_eq!(term.to_string(), "(id id)");
    assert_eq!(term.reduce(&book, &Stop::Whnf, &Step::NormalOrder, 0), Outcome::OutOfSteps);
    let mut done = term_in(&book, "λx x");
    assert_eq!(done.reduce(&book, &Stop::Whnf, &Step::NormalOrder, 0), Outcome::Stopped);
}

#[test]
fn reduction_can_be_taken_up_again() {
    let book = resolved("k = λx λy x\nid = λx x");
    let mut whole = term_in(&book, "(k id id)");
    let all = whole.reduce_stepped(&book, &Stop::Nf, &Step::NormalOrder, 100);
    let mut pieces = term_in(&book, "(k id id)");
    let mut seen: Vec<String> = vec![pieces.to_string()];
    loop {
        let part = pieces.reduce_stepped(&book, &Stop::Nf, &Step::NormalOrder, 2);
        for t in part.iter().skip(1) {
            seen.push(t.to_string());
        }
        if part.len() < 3 {
            break;
        }
    }
    let shown: Vec<String> = all.iter().map(|t| t.to_string()).collect();
    assert_eq!(seen, shown);
    assert_eq!(pieces.to_string(), whole.to_string());
}

#[test]
fn stepped_reduction_ends_with_the_reduced_term() {
    let book = resolved("k = λx λy x\nid = λx x");
    let mut term = term_in(&book, "(k id id)");
    let steps = term.reduce_stepped(&book, &Stop::Nf, &Step::NormalOrder, 100);
    let shown: Vec<String> = steps.iter().map(|t| t.to_string()).collect();
    assert_eq!(
        shown,
        vec!["((k id) id)", "((λx λy x id) id)", "(λy id id)", "id", "λx x"]
    );
    assert_eq!(term.to_string(), "λx x");
}

#[test]
fn stop_and_step_rules_are_chosen_by_form_and_order() {
    assert_eq!(stop_fn(&Form::Nf), Some(Stop::Nf));
    assert_eq!(stop_fn(&Form::Whnf), Some(Stop::Whnf));
    assert_eq!(stop_fn(&Form::Wnf), None);
    assert_eq!(stop_fn(&Form::Hnf), None);
    assert_eq!(step_fn(&ReductionOrder::Normal), Some(Step::NormalOrder));
    assert_eq!(step_fn(&ReductionOrder::Applicative), None);
}

#[test]
fn dangling_references_are_detected() {
    let mut book = Book::new();
    book.insert(Definition { nam: "a".to_string(), bod: Term::Ref { nam: "b".to_string() } });
    assert!(!book.is_closed());
    book.insert(Definition { nam: "b".to_string(), bod: Term::Ref { nam: "a".to_string() } });
    assert!(book.is_closed());
    let names = book.def_names();
    assert!(Term::Ref { nam: "a".to_string() }.refs_defined(&names));
    assert!(parse_term("λx (x y)").unwrap().refs_defined(&names));
    let dangling = Term::App {
        fun: Box::new(Term::Var { nam: "x".to_string() }),
        arg: Box::new(Term::Ref { nam: "c".to_string() }),
    };
    assert!(!dangling.refs_defined(&names));
}
