use mal::printer::pr_str;
use mal::types::MalType;

fn sym(name: &str) -> MalType {
    MalType::Symbol(name.to_string())
}

fn text(s: &str) -> MalType {
    MalType::String(s.to_string())
}

#[test]
fn atoms_are_printed() {
    assert_eq!(pr_str(&MalType::Nil, true), "nil");
    assert_eq!(pr_str(&MalType::Bool(true), true), "true");
    assert_eq!(pr_str(&MalType::Bool(false), false), "false");
    assert_eq!(pr_str(&sym("abc"), true), "abc");
    assert_eq!(pr_str(&MalType::Keyword("kw".to_string()), true), ":kw");
    assert_eq!(pr_str(&MalType::Keyword("kw".to_string()), false), ":kw");
}

#[test]
fn numbers_are_printed_in_decimal() {
    assert_eq!(pr_str(&MalType::Number(0), true), "0");
    assert_eq!(pr_str(&MalType::Number(7), true), "7");
    assert_eq!(pr_str(&MalType::Number(10), true), "10");
    assert_eq!(pr_str(&MalType::Number(-42), true), "-42");
    assert_eq!(pr_str(&MalType::Number(1234567890), true), "1234567890");
    assert_eq!(pr_str(&MalType::Number(i64::MAX), true), "9223372036854775807");
    assert_eq!(pr_str(&MalType::Number(i64::MIN), true), "-9223372036854775808");
}

#[test]
fn readable_strings_are_quoted_and_escaped() {
    assert_eq!(pr_str(&text("abc"), true), "\"abc\"");
    assert_eq!(pr_str(&text("a\nb"), true), "\"a\\nb\"");
    assert_eq!(pr_str(&text("a\\b"), true), "\"a\\\\b\"");
    assert_eq!(pr_str(&text("say \"hi\""), true), "\"say \\\"hi\\\"\"");
    assert_eq!(pr_str(&text("\\n"), true), "\"\\\\n\"");
    assert_eq!(pr_str(&text(""), true), "\"\"");
}

#[test]
fn displayed_strings_are_raw() {
    assert_eq!(pr_str(&text("abc"), false), "abc");
    assert_eq!(pr_str(&text("a\nb \"q\" \\"), false), "a\nb \"q\" \\");
}

#[test]
fn collections_are_printed_with_their_delimiters() {
    let list = MalType::List(vec![MalType::Number(1), text("two"), sym("three")]);
    assert_eq!(pr_str(&list, true), "(1 \"two\" three)");
    assert_eq!(pr_str(&list, false), "(1 two three)");
    let vector = MalType::Vector(vec![MalType::Number(1), MalType::List(vec![])]);
    assert_eq!(pr_str(&vector, true), "[1 ()]");
    let dict = MalType::Dict(vec![
        (MalType::Keyword("a".to_string()), MalType::Number(1)),
        (text("b"), MalType::Vector(vec![MalType::Nil])),
    ]);
    assert_eq!(pr_str(&dict, true), "{:a 1 \"b\" [nil]}");
    assert_eq!(pr_str(&MalType::List(vec![]), true), "()");
    assert_eq!(pr_str(&MalType::Vector(vec![]), true), "[]");
    assert_eq!(pr_str(&MalType::Dict(vec![]), true), "{}");
    assert_eq!(pr_str(&MalType::List(vec![MalType::Nil]), true), "(nil)");
}

#[test]
fn a_function_is_printed_as_a_placeholder() {
    let function = MalType::Function {
        params: vec!["secret".to_string()],
        body: Box::new(sym("hidden")),
        env: 0,
        variadic: false,
    };
    assert_eq!(pr_str(&function, true), "#<function>");
    assert_eq!(pr_str(&function, false), "#<function>");
    assert_eq!(pr_str(&MalType::List(vec![function]), true), "(#<function>)");
}

#[test]
fn print_is_the_readable_text() {
    assert_eq!(text("a\"b").print(), "\"a\\\"b\"");
    assert_eq!(MalType::List(vec![MalType::Number(-1), sym("x")]).print(), "(-1 x)");
}
