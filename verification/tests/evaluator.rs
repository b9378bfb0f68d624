use mal::builtins::{apply_builtin, is_truthy, EvalError};
use mal::env::Runtime;
use mal::eval::{apply_function, create_default_env, eval, eval_ast, handle_special_form};
use mal::printer::pr_str;
use mal::reader::read_str;
use mal::types::MalType;

fn run(rt: &mut Runtime, text: &str) -> Result<MalType, EvalError> {
    let ast = read_str(text).unwrap();
    eval(&ast, 0, rt, 200)
}

fn shown(rt: &mut Runtime, text: &str) -> String {
    pr_str(&run(rt, text).unwrap(), true)
}

fn value(text: &str) -> String {
    let mut rt = create_default_env();
    shown(&mut rt, text)
}

fn failure(text: &str) -> EvalError {
    let mut rt = create_default_env();
    run(&mut rt, text).unwrap_err()
}

#[test]
fn a_number_evaluates_to_itself() {
    let mut rt = create_default_env();
    assert_eq!(run(&mut rt, "42").unwrap(), MalType::Number(42));
    assert_eq!(run(&mut rt, "-7").unwrap(), MalType::Number(-7));
    let child = rt.push_scope(mal::env::Env::new(Some(0)));
    let ast = MalType::Number(i64::MIN);
    assert_eq!(eval(&ast, child, &mut rt, 1).unwrap(), MalType::Number(i64::MIN));
    let mut bare = Runtime::new();
    let only = bare.push_scope(mal::env::Env::new(None));
    assert_eq!(eval(&MalType::Number(3), only, &mut bare, 5).unwrap(), MalType::Number(3));
}

#[test]
fn other_atoms_evaluate_to_themselves() {
    assert_eq!(value("nil"), "nil");
    assert_eq!(value("true"), "true");
    assert_eq!(value("\"text\""), "\"text\"");
    assert_eq!(value(":kw"), ":kw");
    assert_eq!(value("()"), "()");
}

#[test]
fn arithmetic_on_two_numbers() {
    let mut rt = create_default_env();
    assert_eq!(run(&mut rt, "(+ 2 3)").unwrap(), MalType::Number(5));
    assert_eq!(run(&mut rt, "(- 10 4)").unwrap(), MalType::Number(6));
    assert_eq!(run(&mut rt, "(* 3 3)").unwrap(), MalType::Number(9));
    assert_eq!(run(&mut rt, "(/ 7 2)").unwrap(), MalType::Number(3));
    assert_eq!(run(&mut rt, "(/ 1 0)").unwrap_err(), EvalError::DivisionByZero);
}

#[test]
fn division_rounds_towards_zero() {
    assert_eq!(value("(/ -7 2)"), "-3");
    assert_eq!(value("(/ 7 -2)"), "-3");
    assert_eq!(value("(/ -7 -2)"), "3");
    assert_eq!(value("(/ 0 5)"), "0");
    assert_eq!(value("(/ -9223372036854775808 1)"), "-9223372036854775808");
    assert_eq!(value("(/ -9223372036854775808 2)"), "-4611686018427387904");
    assert_eq!(failure("(/ -9223372036854775808 -1)"), EvalError::Overflow);
}

#[test]
fn arithmetic_fails_on_overflow() {
    assert_eq!(failure("(+ 9223372036854775807 1)"), EvalError::Overflow);
    assert_eq!(failure("(- -9223372036854775808 1)"), EvalError::Overflow);
    assert_eq!(failure("(* 4611686018427387904 2)"), EvalError::Overflow);
    assert_eq!(value("(+ 9223372036854775806 1)"), "9223372036854775807");
}

#[test]
fn arithmetic_wants_two_numbers() {
    assert_eq!(failure("(+ 1)"), EvalError::WrongArity);
    assert_eq!(failure("(+ 1 2 3)"), EvalError::WrongArity);
    assert_eq!(failure("(+ 1 \"2\")"), EvalError::WrongType);
    assert_eq!(failure("(/ nil 2)"), EvalError::WrongType);
    assert_eq!(failure("(< 1)"), EvalError::WrongArity);
    assert_eq!(failure("(< 1 :a)"), EvalError::WrongType);
}

#[test]
fn comparisons_of_numbers() {
    assert_eq!(value("(< 1 2)"), "true");
    assert_eq!(value("(< 2 2)"), "false");
    assert_eq!(value("(<= 2 2)"), "true");
    assert_eq!(value("(<= 3 2)"), "false");
    assert_eq!(value("(> 3 2)"), "true");
    assert_eq!(value("(> 2 2)"), "false");
    assert_eq!(value("(>= 2 2)"), "true");
    assert_eq!(value("(>= 1 2)"), "false");
}

#[test]
fn equality_is_structural() {
    assert_eq!(value("(= 1 1)"), "true");
    assert_eq!(value("(= 1 2)"), "false");
    assert_eq!(value("(= \"a\" \"a\")"), "true");
    assert_eq!(value("(= :a \"a\")"), "false");
    assert_eq!(value("(= nil false)"), "false");
    assert_eq!(value("(= (list 1 2) [1 2])"), "true");
    assert_eq!(value("(= [1 2] (list 1 2))"), "true");
    assert_eq!(value("(= (list 1 2) (list 1 3))"), "false");
    assert_eq!(value("(= (list 1 2) (list 1 2 3))"), "false");
    assert_eq!(value("(= {:a 1 :b 2} {:b 2 :a 1})"), "true");
    assert_eq!(value("(= {:a 1} {:a 2})"), "false");
    assert_eq!(value("(= (fn* (a) a) (fn* (a) a))"), "false");
    assert_eq!(value("(let* (f (fn* (a) a)) (= f f))"), "false");
    assert_eq!(failure("(= 1)"), EvalError::WrongArity);
}

#[test]
fn list_operations() {
    assert_eq!(value("(list)"), "()");
    assert_eq!(value("(list 1 (+ 1 1) \"3\")"), "(1 2 \"3\")");
    assert_eq!(value("(list? (list 1))"), "true");
    assert_eq!(value("(list? [1])"), "false");
    assert_eq!(value("(list? nil)"), "false");
    assert_eq!(value("(empty? (list))"), "true");
    assert_eq!(value("(empty? [1])"), "false");
    assert_eq!(value("(count (list 1 2 3))"), "3");
    assert_eq!(value("(count [])"), "0");
    assert_eq!(value("(count nil)"), "0");
    assert_eq!(failure("(empty? 1)"), EvalError::WrongType);
    assert_eq!(failure("(empty? nil)"), EvalError::WrongType);
    assert_eq!(failure("(count 1)"), EvalError::WrongType);
    assert_eq!(failure("(count)"), EvalError::WrongArity);
    assert_eq!(failure("(list? 1 2)"), EvalError::WrongArity);
    assert_eq!(failure("(empty?)"), EvalError::WrongArity);
}

#[test]
fn not_inverts_truthiness() {
    assert_eq!(value("(not nil)"), "true");
    assert_eq!(value("(not false)"), "true");
    assert_eq!(value("(not true)"), "false");
    assert_eq!(value("(not 0)"), "false");
    assert_eq!(value("(not (list))"), "false");
    assert_eq!(value("(not \"\")"), "false");
    assert_eq!(failure("(not)"), EvalError::WrongArity);
}

#[test]
fn only_nil_and_false_are_falsy() {
    assert!(!is_truthy(&MalType::Nil));
    assert!(!is_truthy(&MalType::Bool(false)));
    assert!(is_truthy(&MalType::Bool(true)));
    assert!(is_truthy(&MalType::Number(0)));
    assert!(is_truthy(&MalType::List(vec![])));
    assert!(is_truthy(&MalType::String(String::new())));
}

#[test]
fn string_operations_print_their_arguments() {
    assert_eq!(value("(pr-str 1 \"a b\" :k)"), "\"1 \\\"a b\\\" :k\"");
    assert_eq!(value("(pr-str)"), "\"\"");
    assert_eq!(value("(str 1 \"a b\" :k (list \"x\"))"), "\"1a b:k(x)\"");
    assert_eq!(value("(str)"), "\"\"");
}

#[test]
fn prn_and_println_add_a_line_and_give_nil() {
    let mut rt = create_default_env();
    assert_eq!(run(&mut rt, "(prn 1 \"a\\nb\")").unwrap(), MalType::Nil);
    assert_eq!(run(&mut rt, "(println 1 \"a b\" (list \"c\"))").unwrap(), MalType::Nil);
    assert_eq!(run(&mut rt, "(do (prn) (println))").unwrap(), MalType::Nil);
    assert_eq!(rt.take_output(), vec!["1 \"a\\nb\"", "1 a b (c)", "", ""]);
    assert_eq!(rt.take_output(), Vec::<String>::new());
}

#[test]
fn def_binds_in_the_current_scope() {
    let mut rt = create_default_env();
    assert_eq!(run(&mut rt, "(def! x 5) x").unwrap(), MalType::Number(5));
    assert_eq!(run(&mut rt, "x").unwrap(), MalType::Number(5));
    assert_eq!(run(&mut rt, "(def! x (+ x 1))").unwrap(), MalType::Number(6));
    assert_eq!(run(&mut rt, "x").unwrap(), MalType::Number(6));
}

#[test]
fn def_checks_its_operands() {
    assert_eq!(failure("(def! x)"), EvalError::WrongArity);
    assert_eq!(failure("(def! x 1 2)"), EvalError::WrongArity);
    assert_eq!(failure("(def! 1 2)"), EvalError::WrongType);
    assert_eq!(failure("(def! \"x\" 2)"), EvalError::WrongType);
    let mut rt = create_default_env();
    assert_eq!(
        run(&mut rt, "(def! y missing)").unwrap_err(),
        EvalError::SymbolNotFound("missing".to_string())
    );
    assert_eq!(run(&mut rt, "y").unwrap_err(), EvalError::SymbolNotFound("y".to_string()));
}

#[test]
fn let_bindings_see_earlier_siblings() {
    let mut rt = create_default_env();
    assert_eq!(run(&mut rt, "(let* (x 2 y (+ x 1)) (* x y))").unwrap(), MalType::Number(6));
    assert_eq!(run(&mut rt, "(let* [x 2 x (* x x)] x)").unwrap(), MalType::Number(4));
    assert_eq!(run(&mut rt, "(let* () 9)").unwrap(), MalType::Number(9));
    assert_eq!(
        run(&mut rt, "(let* (a b b 1) a)").unwrap_err(),
        EvalError::SymbolNotFound("b".to_string())
    );
}

#[test]
fn let_bindings_stay_in_their_scope() {
    let mut rt = create_default_env();
    assert_eq!(run(&mut rt, "(def! x 1)").unwrap(), MalType::Number(1));
    assert_eq!(run(&mut rt, "(let* (x 2) x)").unwrap(), MalType::Number(2));
    assert_eq!(run(&mut rt, "x").unwrap(), MalType::Number(1));
    assert_eq!(run(&mut rt, "(let* (z 3) (def! w z))").unwrap(), MalType::Number(3));
    assert_eq!(run(&mut rt, "w").unwrap_err(), EvalError::SymbolNotFound("w".to_string()));
}

#[test]
fn let_checks_its_operands() {
    assert_eq!(failure("(let* (x 1))"), EvalError::WrongArity);
    assert_eq!(failure("(let* (x 1) x x)"), EvalError::WrongArity);
    assert_eq!(failure("(let* x x)"), EvalError::WrongType);
    assert_eq!(failure("(let* (x) x)"), EvalError::BadSyntax);
    assert_eq!(failure("(let* (x 1 y) x)"), EvalError::BadSyntax);
    assert_eq!(failure("(let* (1 2) 3)"), EvalError::WrongType);
    assert_eq!(failure("(let* (x 1 :k 2) x)"), EvalError::WrongType);
}

#[test]
fn do_gives_the_value_of_the_last_form() {
    let mut rt = create_default_env();
    assert_eq!(run(&mut rt, "(do 1 2 3)").unwrap(), MalType::Number(3));
    assert_eq!(run(&mut rt, "(do (def! a 1) (def! b (+ a 1)) (+ a b))").unwrap(), MalType::Number(3));
    assert_eq!(run(&mut rt, "(do 7)").unwrap(), MalType::Number(7));
    assert_eq!(run(&mut rt, "(do)").unwrap_err(), EvalError::WrongArity);
}

#[test]
fn do_stops_at_the_first_failure() {
    let mut rt = create_default_env();
    assert_eq!(
        run(&mut rt, "(do (prn 1) (def! seen 1) nope (prn 2) (def! later 2))").unwrap_err(),
        EvalError::SymbolNotFound("nope".to_string())
    );
    assert_eq!(rt.take_output(), vec!["1"]);
    assert_eq!(run(&mut rt, "seen").unwrap(), MalType::Number(1));
    assert_eq!(run(&mut rt, "later").unwrap_err(), EvalError::SymbolNotFound("later".to_string()));
}

#[test]
fn if_without_else_gives_nil() {
    let mut rt = create_default_env();
    assert_eq!(run(&mut rt, "(if false 1)").unwrap(), MalType::Nil);
    assert_eq!(run(&mut rt, "(if nil 1)").unwrap(), MalType::Nil);
}

#[test]
fn if_chooses_a_branch_by_truthiness() {
    assert_eq!(value("(if true 1 2)"), "1");
    assert_eq!(value("(if false 1 2)"), "2");
    assert_eq!(value("(if nil 1 2)"), "2");
    assert_eq!(value("(if 0 1 2)"), "1");
    assert_eq!(value("(if (list) 1 2)"), "1");
    assert_eq!(value("(if \"\" 1 2)"), "1");
    assert_eq!(value("(if true 1 missing)"), "1");
    assert_eq!(value("(if false missing 2)"), "2");
    assert_eq!(failure("(if)"), EvalError::WrongArity);
    assert_eq!(failure("(if true)"), EvalError::WrongArity);
    assert_eq!(failure("(if true 1 2 3)"), EvalError::WrongArity);
    assert_eq!(failure("(if missing 1 2)"), EvalError::SymbolNotFound("missing".to_string()));
}

#[test]
fn variadic_function_collects_the_rest() {
    let mut rt = create_default_env();
    assert_eq!(shown(&mut rt, "((fn* (a & rest) (list a rest)) 1 2 3)"), "(1 (2 3))");
    assert_eq!(shown(&mut rt, "((fn* (a & rest) (list a rest)) 1)"), "(1 ())");
    assert_eq!(shown(&mut rt, "((fn* (a & rest) (list a rest)))"), "(nil ())");
    assert_eq!(shown(&mut rt, "((fn* (& all) all) 1 2)"), "(1 2)");
    assert_eq!(shown(&mut rt, "((fn* [& all] (count all)))"), "0");
}

#[test]
fn missing_arguments_are_nil_and_surplus_ones_are_dropped() {
    assert_eq!(value("((fn* (a b) (list a b)) 1)"), "(1 nil)");
    assert_eq!(value("((fn* (a b) (list a b)))"), "(nil nil)");
    assert_eq!(value("((fn* (a) a) 1 2 3)"), "1");
    assert_eq!(value("((fn* () 7))"), "7");
}

#[test]
fn fn_checks_its_operands() {
    assert_eq!(failure("(fn* (a))"), EvalError::WrongArity);
    assert_eq!(failure("(fn* (a) a a)"), EvalError::WrongArity);
    assert_eq!(failure("(fn* a a)"), EvalError::WrongType);
    assert_eq!(failure("(fn* (1) 1)"), EvalError::WrongType);
    assert_eq!(failure("(fn* (a \"b\") a)"), EvalError::WrongType);
    assert_eq!(failure("(fn* (a &) a)"), EvalError::BadSyntax);
    assert_eq!(failure("(fn* (a & b c) a)"), EvalError::BadSyntax);
    assert_eq!(failure("(fn* (& a & b) a)"), EvalError::BadSyntax);
    assert_eq!(failure("(fn* (a & 1) a)"), EvalError::BadSyntax);
}

#[test]
fn fn_makes_a_closure_over_the_current_scope() {
    let mut rt = create_default_env();
    let made = run(&mut rt, "(fn* (a & more) (+ a 1))").unwrap();
    match made {
        MalType::Function { params, body, env, variadic } => {
            assert_eq!(params, vec!["a", "&", "more"]);
            assert_eq!(*body, read_str("(+ a 1)").unwrap());
            assert_eq!(env, 0);
            assert!(variadic);
        },
        other => panic!("not a function: {:?}", other),
    }
    let plain = run(&mut rt, "(let* (k 1) (fn* (a) k))").unwrap();
    match plain {
        MalType::Function { env, variadic, .. } => {
            assert_eq!(env, 1);
            assert!(!variadic);
        },
        other => panic!("not a function: {:?}", other),
    }
}

#[test]
fn closures_keep_their_scope() {
    let mut rt = create_default_env();
    run(&mut rt, "(def! make-adder (fn* (n) (fn* (x) (+ x n))))").unwrap();
    run(&mut rt, "(def! add2 (make-adder 2))").unwrap();
    run(&mut rt, "(def! add10 (make-adder 10))").unwrap();
    assert_eq!(run(&mut rt, "(add2 5)").unwrap(), MalType::Number(7));
    assert_eq!(run(&mut rt, "(add10 5)").unwrap(), MalType::Number(15));
    assert_eq!(run(&mut rt, "(let* (n 100) (add2 1))").unwrap(), MalType::Number(3));
}

#[test]
fn a_closure_is_not_fooled_by_a_later_shadowing_scope() {
    let mut rt = create_default_env();
    run(&mut rt, "(def! x 1)").unwrap();
    run(&mut rt, "(def! f (fn* () x))").unwrap();
    assert_eq!(run(&mut rt, "(let* (x 2) (f))").unwrap(), MalType::Number(1));
    assert_eq!(run(&mut rt, "((fn* (x) (f)) 3)").unwrap(), MalType::Number(1));
    assert_eq!(run(&mut rt, "(let* (x 2) (let* (g (fn* () x)) (let* (x 3) (g))))").unwrap(), MalType::Number(2));
}

#[test]
fn a_closure_sees_later_definitions_in_its_own_chain() {
    let mut rt = create_default_env();
    run(&mut rt, "(def! g (fn* () later))").unwrap();
    assert_eq!(run(&mut rt, "(g)").unwrap_err(), EvalError::SymbolNotFound("later".to_string()));
    run(&mut rt, "(def! later 9)").unwrap();
    assert_eq!(run(&mut rt, "(g)").unwrap(), MalType::Number(9));
    run(&mut rt, "(def! later 10)").unwrap();
    assert_eq!(run(&mut rt, "(g)").unwrap(), MalType::Number(10));
}

#[test]
fn an_unbound_symbol_is_not_found() {
    let mut rt = create_default_env();
    assert_eq!(run(&mut rt, "nope").unwrap_err(), EvalError::SymbolNotFound("nope".to_string()));
    assert_eq!(
        run(&mut rt, "(+ 1 nope)").unwrap_err(),
        EvalError::SymbolNotFound("nope".to_string())
    );
    assert_eq!(
        run(&mut rt, "(nope 1)").unwrap_err(),
        EvalError::SymbolNotFound("nope".to_string())
    );
}

#[test]
fn a_symbol_of_a_sibling_scope_is_not_found() {
    let mut rt = create_default_env();
    let left = rt.push_scope(mal::env::Env::new(Some(0)));
    let right = rt.push_scope(mal::env::Env::new(Some(0)));
    rt.define(left, "only-left", MalType::Number(1));
    let ast = read_str("only-left").unwrap();
    assert_eq!(eval(&ast, left, &mut rt, 10).unwrap(), MalType::Number(1));
    assert_eq!(
        eval(&ast, right, &mut rt, 10).unwrap_err(),
        EvalError::SymbolNotFound("only-left".to_string())
    );
    assert_eq!(
        eval(&ast, 0, &mut rt, 10).unwrap_err(),
        EvalError::SymbolNotFound("only-left".to_string())
    );
}

#[test]
fn applying_what_is_no_function_fails() {
    assert_eq!(failure("(1 2 3)"), EvalError::NotAFunction);
    assert_eq!(failure("(\"f\" 1)"), EvalError::NotAFunction);
    assert_eq!(failure("(nil)"), EvalError::NotAFunction);
    assert_eq!(failure("((list 1) 2)"), EvalError::NotAFunction);
    let mut rt = create_default_env();
    run(&mut rt, "(def! alias (quote-free))").unwrap_err();
    rt.define(0, "odd", MalType::Symbol("no-such-operation".to_string()));
    assert_eq!(run(&mut rt, "(odd 1)").unwrap_err(), EvalError::NotAFunction);
}

#[test]
fn a_builtin_can_be_passed_around() {
    let mut rt = create_default_env();
    assert_eq!(run(&mut rt, "(def! plus +)").unwrap(), MalType::Symbol("+".to_string()));
    assert_eq!(run(&mut rt, "(plus 1 2)").unwrap(), MalType::Number(3));
    assert_eq!(run(&mut rt, "((fn* (op a b) (op a b)) * 6 7)").unwrap(), MalType::Number(42));
}

#[test]
fn vectors_and_maps_evaluate_their_items() {
    assert_eq!(value("[1 (+ 1 1) [(* 1 3)]]"), "[1 2 [3]]");
    assert_eq!(value("{:a (+ 1 1) \"b\" [(+ 1 2)]}"), "{:a 2 \"b\" [3]}");
    assert_eq!(value("{(+ 1 1) (+ 1 1)}"), "{(+ 1 1) 2}");
    assert_eq!(value("{:a 1 :a 2}"), "{:a 1 :a 2}");
    assert_eq!(failure("[1 nope 2]"), EvalError::SymbolNotFound("nope".to_string()));
    assert_eq!(failure("{:a nope}"), EvalError::SymbolNotFound("nope".to_string()));
}

#[test]
fn a_failure_leaves_no_partial_result() {
    let mut rt = create_default_env();
    assert_eq!(
        run(&mut rt, "(list (prn 1) nope (prn 2))").unwrap_err(),
        EvalError::SymbolNotFound("nope".to_string())
    );
    assert_eq!(rt.take_output(), vec!["1"]);
}

#[test]
fn recursion_works_within_the_depth() {
    let mut rt = create_default_env();
    run(&mut rt, "(def! fact (fn* (n) (if (= n 0) 1 (* n (fact (- n 1))))))").unwrap();
    assert_eq!(run(&mut rt, "(fact 5)").unwrap(), MalType::Number(120));
    assert_eq!(run(&mut rt, "(fact 20)").unwrap(), MalType::Number(2432902008176640000));
    assert_eq!(run(&mut rt, "(fact 21)").unwrap_err(), EvalError::Overflow);
}

#[test]
fn nesting_beyond_the_depth_fails() {
    let mut rt = create_default_env();
    run(&mut rt, "(def! forever (fn* () (forever)))").unwrap();
    assert_eq!(run(&mut rt, "(forever)").unwrap_err(), EvalError::DepthExceeded);
    let ast = read_str("(+ 1 (+ 2 3))").unwrap();
    assert_eq!(eval(&ast, 0, &mut rt, 0).unwrap_err(), EvalError::DepthExceeded);
    assert_eq!(eval(&ast, 0, &mut rt, 1).unwrap_err(), EvalError::DepthExceeded);
    assert_eq!(eval(&ast, 0, &mut rt, 2).unwrap_err(), EvalError::DepthExceeded);
    assert_eq!(eval(&ast, 0, &mut rt, 3).unwrap(), MalType::Number(6));
    assert_eq!(eval(&MalType::Number(1), 0, &mut rt, 0).unwrap_err(), EvalError::DepthExceeded);
}

#[test]
fn a_function_without_its_scope_fails() {
    let mut rt = create_default_env();
    let orphan = MalType::Function {
        params: vec![],
        body: Box::new(MalType::Number(1)),
        env: 99,
        variadic: false,
    };
    assert_eq!(
        apply_function(&orphan, vec![], &mut rt, 10).unwrap_err(),
        EvalError::DanglingScope
    );
    assert_eq!(rt.len(), 1);
}

#[test]
fn apply_function_binds_and_runs() {
    let mut rt = create_default_env();
    let f = run(&mut rt, "(fn* (a b & more) (list b a more))").unwrap();
    let args = vec![MalType::Number(1), MalType::Number(2), MalType::Number(3)];
    let result = apply_function(&f, args, &mut rt, 50).unwrap();
    assert_eq!(pr_str(&result, true), "(2 1 (3))");
    let plus = MalType::Symbol("+".to_string());
    let sum = apply_function(&plus, vec![MalType::Number(2), MalType::Number(3)], &mut rt, 0);
    assert_eq!(sum.unwrap(), MalType::Number(5));
    let not_one = apply_function(&MalType::Number(1), vec![], &mut rt, 5);
    assert_eq!(not_one.unwrap_err(), EvalError::NotAFunction);
}

#[test]
fn the_variadic_flag_decides_how_parameters_bind() {
    let mut rt = create_default_env();
    let flagged = MalType::Function {
        params: vec!["a".to_string(), "&".to_string(), "r".to_string()],
        body: Box::new(read_str("(list a r)").unwrap()),
        env: 0,
        variadic: true,
    };
    let args = vec![MalType::Number(1), MalType::Number(2), MalType::Number(3)];
    let result = apply_function(&flagged, args.clone(), &mut rt, 50).unwrap();
    assert_eq!(pr_str(&result, true), "(1 (2 3))");
    let unflagged = MalType::Function {
        params: vec!["a".to_string(), "&".to_string(), "r".to_string()],
        body: Box::new(read_str("(list a r)").unwrap()),
        env: 0,
        variadic: false,
    };
    let result = apply_function(&unflagged, args, &mut rt, 50).unwrap();
    assert_eq!(pr_str(&result, true), "(1 3)");
}

#[test]
fn apply_builtin_by_name() {
    let mut rt = Runtime::new();
    let three = apply_builtin("-", vec![MalType::Number(5), MalType::Number(2)], &mut rt).unwrap();
    assert_eq!(three, MalType::Number(3));
    assert_eq!(
        apply_builtin("no-such", vec![], &mut rt).unwrap_err(),
        EvalError::NotAFunction
    );
    assert_eq!(apply_builtin("println", vec![MalType::Number(5)], &mut rt).unwrap(), MalType::Nil);
    assert_eq!(rt.take_output(), vec!["5"]);
}

#[test]
fn eval_ast_evaluates_by_structure() {
    let mut rt = create_default_env();
    let list = read_str("(+ 1 2)").unwrap();
    let result = eval_ast(&list, 0, &mut rt, 10).unwrap();
    assert_eq!(pr_str(&result, true), "(+ 1 2)");
    let symbol = read_str("count").unwrap();
    assert_eq!(eval_ast(&symbol, 0, &mut rt, 0).unwrap(), MalType::Symbol("count".to_string()));
}

#[test]
fn handle_special_form_leaves_other_lists_alone() {
    let mut rt = create_default_env();
    let call = match read_str("(+ 1 2)").unwrap() {
        MalType::List(items) => items,
        _ => unreachable!(),
    };
    assert!(handle_special_form(&call, 0, &mut rt, 10).is_none());
    assert!(handle_special_form(&vec![], 0, &mut rt, 10).is_none());
    let form = match read_str("(def! k 3)").unwrap() {
        MalType::List(items) => items,
        _ => unreachable!(),
    };
    assert_eq!(handle_special_form(&form, 0, &mut rt, 10), Some(Ok(MalType::Number(3))));
    assert_eq!(rt.lookup(0, "k"), Some(MalType::Number(3)));
}

#[test]
fn the_trace_logs_forms_and_values_and_changes_no_result() {
    let mut rt = create_default_env();
    let quiet = run(&mut rt, "(+ 1 (* 2 3))").unwrap();
    assert_eq!(rt.take_trace(), Vec::<String>::new());
    run(&mut rt, "(def! DEBUG-EVAL true)").unwrap();
    assert_eq!(rt.take_trace(), Vec::<String>::new());
    let loud = run(&mut rt, "(+ 1 (* 2 3))").unwrap();
    assert_eq!(loud, quiet);
    assert_eq!(rt.take_trace(), vec![
        "EVAL: (+ 1 (* 2 3))",
        "EVAL: +",
        "+",
        "EVAL: 1",
        "1",
        "EVAL: (* 2 3)",
        "EVAL: *",
        "*",
        "EVAL: 2",
        "2",
        "EVAL: 3",
        "3",
        "6",
        "7"
    ]);
    assert_eq!(run(&mut rt, "nope").unwrap_err(), EvalError::SymbolNotFound("nope".to_string()));
    assert_eq!(rt.take_trace(), vec!["EVAL: nope"]);
    run(&mut rt, "(def! DEBUG-EVAL nil)").unwrap();
    rt.take_trace();
    run(&mut rt, "(+ 1 2)").unwrap();
    assert_eq!(rt.take_trace(), Vec::<String>::new());
    run(&mut rt, "(def! DEBUG-EVAL 0)").unwrap();
    rt.take_trace();
    run(&mut rt, "7").unwrap();
    assert_eq!(rt.take_trace(), vec!["EVAL: 7", "7"]);
}

#[test]
fn the_root_scope_binds_the_builtins() {
    let rt = create_default_env();
    assert_eq!(rt.len(), 1);
    assert_eq!(rt.lookup(0, "nil"), Some(MalType::Nil));
    assert_eq!(rt.lookup(0, "true"), Some(MalType::Bool(true)));
    assert_eq!(rt.lookup(0, "false"), Some(MalType::Bool(false)));
    for name in [
        "+", "-", "*", "/", "=", ">", ">=", "<", "<=", "list", "list?", "empty?", "count",
        "pr-str", "str", "prn", "println", "not",
    ] {
        assert_eq!(rt.lookup(0, name), Some(MalType::Symbol(name.to_string())));
    }
    assert_eq!(rt.lookup(0, "def!"), None);
}

#[test]
fn errors_have_a_message() {
    assert_eq!(EvalError::SymbolNotFound("abc".to_string()).message(), "symbol not found: abc");
    assert_eq!(EvalError::NotAFunction.message(), "not a function");
    assert_eq!(EvalError::DivisionByZero.message(), "division by zero");
    assert_eq!(EvalError::WrongArity.message(), "wrong number of arguments");
    assert_eq!(EvalError::WrongType.message(), "wrong kind of argument");
    assert_eq!(EvalError::Overflow.message(), "integer overflow");
    assert_eq!(EvalError::BadSyntax.message(), "malformed special form");
    assert_eq!(EvalError::DepthExceeded.message(), "evaluation nests too deep");
    assert_eq!(EvalError::DanglingScope.message(), "function without a scope");
}
