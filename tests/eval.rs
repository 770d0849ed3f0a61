use mal::eval::{EvalError, Interp};
use mal::natives::namespace;
use mal::types::MalType;

fn session() -> Interp {
    let mut it = Interp::new();
    for (name, f) in namespace() {
        it.define(name, MalType::BuiltinFn(f));
    }
    it
}

fn run(it: &mut Interp, line: &str) -> String {
    it.rep(line).expect("evaluates")
}

#[test]
fn sum_of_three() {
    assert_eq!(run(&mut session(), "(+ 1 2 3)"), "6");
}

#[test]
fn empty_fold_identities() {
    let mut it = session();
    assert_eq!(run(&mut it, "(* )"), "1");
    assert_eq!(run(&mut it, "(*)"), "1");
    assert_eq!(run(&mut it, "(+ )"), "0");
}

#[test]
fn def_binds_and_yields_nil() {
    let mut it = session();
    assert_eq!(run(&mut it, "(def! x 5)"), "nil");
    assert_eq!(run(&mut it, "x"), "5");
}

#[test]
fn let_sees_earlier_bindings() {
    assert_eq!(run(&mut session(), "(let* (a 1 b (+ a 1)) b)"), "2");
}

#[test]
fn let_scope_does_not_leak() {
    let mut it = session();
    assert_eq!(run(&mut it, "(let* (a 1) a)"), "1");
    assert_eq!(run(&mut it, "a"), "nil");
}

#[test]
fn only_nil_and_false_are_false() {
    let mut it = session();
    assert_eq!(run(&mut it, "(if nil 1 2)"), "2");
    assert_eq!(run(&mut it, "(if 0 1 2)"), "1");
    assert_eq!(run(&mut it, "(if false 1 2)"), "2");
    assert_eq!(run(&mut it, "(if (list) 1 2)"), "1");
}

#[test]
fn closure_call_drops_extra_arguments() {
    let mut it = session();
    assert_eq!(run(&mut it, "((fn* (a b) (+ a b)) 3 4)"), "7");
    assert_eq!(run(&mut it, "((fn* (a b) (+ a b)) 3 4 5)"), "7");
}

#[test]
fn missing_argument_leaves_parameter_unbound() {
    assert_eq!(run(&mut session(), "((fn* (a b) b) 3)"), "nil");
}

#[test]
fn closure_sees_its_defining_scope() {
    let mut it = session();
    run(&mut it, "(def! adder (fn* (n) (fn* (m) (+ n m))))");
    assert_eq!(run(&mut it, "((adder 10) 5)"), "15");
}

#[test]
fn unbound_symbol_is_nil() {
    let mut it = Interp::new();
    assert_eq!(run(&mut it, "nothing-here"), "nil");
}

#[test]
fn equality_of_lists_and_functions() {
    let mut it = session();
    assert_eq!(run(&mut it, "(= (list 1 2) (list 1 2))"), "true");
    assert_eq!(run(&mut it, "(= + +)"), "false");
    run(&mut it, "(def! f (fn* (a) a))");
    assert_eq!(run(&mut it, "(= f f)"), "false");
    assert_eq!(run(&mut it, "(= f 1)"), "false");
}

#[test]
fn comparisons() {
    let mut it = session();
    assert_eq!(run(&mut it, "(< 1 2)"), "true");
    assert_eq!(run(&mut it, "(>= 1 2)"), "false");
    assert_eq!(run(&mut it, "(<= (list 1) (list 1))"), "true");
    assert_eq!(run(&mut it, "(< (list 1) (list 1))"), "false");
    assert_eq!(run(&mut it, "(> 3 -3)"), "true");
}

#[test]
fn list_queries() {
    let mut it = session();
    assert_eq!(run(&mut it, "(count (list 1 2 3))"), "3");
    assert_eq!(run(&mut it, "(empty? (list))"), "true");
    assert_eq!(run(&mut it, "(list? (list 1))"), "true");
    assert_eq!(run(&mut it, "(list? 1)"), "false");
    assert_eq!(run(&mut it, "()"), "()");
}

#[test]
fn do_runs_in_order_and_prn_prints() {
    let mut it = session();
    assert_eq!(run(&mut it, "(do (prn 1) (prn \"s\") 2)"), "2");
    assert_eq!(it.take_printed(), vec!["1", "\"s\""]);
    assert!(it.take_printed().is_empty());
}

#[test]
fn str_joins_without_quotes() {
    assert_eq!(run(&mut session(), "(str \"a\" 1 (list 2 \"b\"))"), "\"a 1 (2 b)\"");
}

#[test]
fn eval_uses_the_global_scope() {
    let mut it = session();
    run(&mut it, "(def! x 1)");
    assert_eq!(run(&mut it, "(let* (x 2) (eval (read-string \"x\")))"), "1");
    assert_eq!(run(&mut it, "(eval (list + 1 2))"), "3");
}

#[test]
fn negative_numbers_print() {
    assert_eq!(run(&mut session(), "(+ -5 2)"), "-3");
}

#[test]
fn malformed_forms() {
    let mut it = session();
    assert!(matches!(it.rep("(def! 1 2)"), Err(EvalError::Malformed)));
    assert!(matches!(it.rep("(do)"), Err(EvalError::Malformed)));
    assert!(matches!(it.rep("(if true 1)"), Err(EvalError::Malformed)));
    assert!(matches!(it.rep("(let* (a) a)"), Err(EvalError::Malformed)));
    assert!(matches!(it.rep("(fn* (1) 1)"), Err(EvalError::Malformed)));
}

#[test]
fn call_of_non_function() {
    assert!(matches!(session().rep("(1 2)"), Err(EvalError::NotAFunction)));
}

#[test]
fn bad_native_arguments() {
    let mut it = session();
    assert!(matches!(it.rep("(+ 1 true)"), Err(EvalError::BadArgs)));
    assert!(matches!(it.rep("(count 1)"), Err(EvalError::BadArgs)));
    assert!(matches!(it.rep("(=)"), Err(EvalError::BadArgs)));
}

#[test]
fn overflow_is_reported() {
    let mut it = session();
    assert!(matches!(it.rep("(* 9223372036854775807 2)"), Err(EvalError::Overflow)));
    assert!(matches!(it.rep("(+ 9223372036854775807 1)"), Err(EvalError::Overflow)));
}

#[test]
fn unreadable_text() {
    let mut it = session();
    assert!(matches!(it.rep("(+ 1"), Err(EvalError::Unreadable)));
    assert!(matches!(it.rep("(read-string \"(1\")"), Err(EvalError::Unreadable)));
}

#[test]
fn file_is_asked_for_then_read() {
    let mut it = session();
    run(&mut it, "(def! n 0)");
    match it.rep("(do (def! n 1) (slurp \"f.txt\"))") {
        Err(EvalError::NeedsFile(name)) => assert_eq!(name, "f.txt"),
        other => panic!("unexpected {:?}", other),
    }
    assert_eq!(run(&mut it, "n"), "0");
    it.provide_file("f.txt".to_string(), "(+ 1 2)".to_string());
    assert_eq!(run(&mut it, "(do (def! n 1) (slurp \"f.txt\"))"), "\"(+ 1 2)\"");
    assert_eq!(run(&mut it, "n"), "1");
}

#[test]
fn load_file_definition_works() {
    let mut it = session();
    run(&mut it, "(def! load-file (fn* (f) (eval (read-string (str \"(do\" (slurp f) \"nil\" \")\")))))");
    it.provide_file("lib.mal".to_string(), "(def! y 9) ; comment\n".to_string());
    assert_eq!(run(&mut it, "(load-file \"lib.mal\")"), "nil");
    assert_eq!(run(&mut it, "y"), "9");
}

#[test]
fn global_lookup_after_define() {
    let mut it = session();
    run(&mut it, "(def! z (list 1 2))");
    assert_eq!(it.lookup("z").expect("bound").to_text(), "(1 2)");
    assert!(it.lookup("missing").is_none());
}

#[test]
fn natives_table_names() {
    let names: Vec<&str> = namespace().iter().map(|p| p.0).collect();
    assert_eq!(names.len(), 16);
    assert!(names.contains(&"read-string"));
    assert!(names.contains(&"slurp"));
}
