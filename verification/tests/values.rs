use mal::text::{chars_of, is_digit, is_whitespace, parse_decimal, push_decimal, push_int, same_text, string_from};
use mal::types::{equal_items, equal_pairs, equal_values, MalType};

fn number(n: i64) -> MalType {
    MalType::Number(n)
}

fn text(s: &str) -> MalType {
    MalType::String(s.to_string())
}

fn function() -> MalType {
    MalType::Function {
        params: vec!["a".to_string()],
        body: Box::new(MalType::Symbol("a".to_string())),
        env: 0,
        variadic: false,
    }
}

#[test]
fn atoms_are_equal_to_themselves() {
    assert_eq!(MalType::Nil, MalType::Nil);
    assert_eq!(MalType::Bool(true), MalType::Bool(true));
    assert_ne!(MalType::Bool(true), MalType::Bool(false));
    assert_eq!(number(3), number(3));
    assert_ne!(number(3), number(4));
    assert_eq!(text("a"), text("a"));
    assert_ne!(text("a"), text("b"));
    assert_ne!(text("a"), MalType::Symbol("a".to_string()));
    assert_ne!(text("a"), MalType::Keyword("a".to_string()));
    assert_ne!(MalType::Nil, MalType::Bool(false));
    assert_ne!(number(0), MalType::Nil);
}

#[test]
fn lists_and_vectors_are_equal_across_kinds() {
    let list = MalType::List(vec![number(1), text("a")]);
    let vector = MalType::Vector(vec![number(1), text("a")]);
    assert_eq!(list, vector);
    assert_eq!(vector, list);
    assert_ne!(list, MalType::Vector(vec![number(1)]));
    assert_ne!(list, MalType::Vector(vec![text("a"), number(1)]));
    assert_eq!(MalType::List(vec![]), MalType::Vector(vec![]));
    let nested = MalType::List(vec![MalType::Vector(vec![number(1)])]);
    assert_eq!(nested, MalType::Vector(vec![MalType::List(vec![number(1)])]));
    assert_ne!(MalType::List(vec![]), MalType::Dict(vec![]));
    assert!(equal_items(&vec![number(1)], &vec![number(1)]));
    assert!(!equal_items(&vec![number(1)], &vec![number(2)]));
}

#[test]
fn maps_are_equal_when_their_pairs_match_one_to_one() {
    let a = MalType::Dict(vec![(text("k"), number(1)), (text("l"), number(2))]);
    let b = MalType::Dict(vec![(text("l"), number(2)), (text("k"), number(1))]);
    assert_eq!(a, b);
    assert_eq!(a.clone(), a);
    assert_ne!(a, MalType::Dict(vec![(text("k"), number(1))]));
    assert_ne!(a, MalType::Dict(vec![(text("k"), number(1)), (text("l"), number(3))]));
    let twice = vec![(text("k"), number(1)), (text("k"), number(1))];
    let once = vec![(text("k"), number(1)), (text("l"), number(1))];
    assert!(equal_pairs(&twice, &twice));
    assert!(!equal_pairs(&twice, &once));
    assert!(!equal_pairs(&once, &twice));
    assert!(equal_pairs(&vec![], &vec![]));
    assert!(!equal_pairs(&vec![], &once));
}

#[test]
fn a_function_is_equal_to_nothing() {
    let f = function();
    assert_ne!(f, function());
    assert_ne!(f.clone(), f);
    assert!(!equal_values(&f, &f));
    assert_ne!(MalType::List(vec![function()]), MalType::List(vec![function()]));
    assert_ne!(f, MalType::Nil);
}

#[test]
fn a_copy_prints_as_what_it_copies() {
    let first = MalType::List(vec![
        number(1),
        MalType::Vector(vec![text("a"), MalType::Keyword("k".to_string())]),
        MalType::Dict(vec![(MalType::Symbol("s".to_string()), MalType::Bool(true))]),
        MalType::Nil,
        function(),
    ]);
    let copy = first.clone();
    assert_eq!(copy.print(), first.print());
    assert_eq!(copy.print(), "(1 [\"a\" :k] {s true} nil #<function>)");
    match function().clone() {
        MalType::Function { params, body, env, variadic } => {
            assert_eq!(params, vec!["a"]);
            assert_eq!(*body, MalType::Symbol("a".to_string()));
            assert_eq!(env, 0);
            assert!(!variadic);
        },
        other => panic!("not a function: {:?}", other),
    }
}

#[test]
fn texts_are_compared_by_their_characters() {
    assert!(same_text("", ""));
    assert!(same_text("abc", "abc"));
    assert!(!same_text("abc", "abd"));
    assert!(!same_text("abc", "ab"));
    assert!(!same_text("ab", "abc"));
    assert!(same_text("\u{e9}", "\u{e9}"));
}

#[test]
fn characters_of_a_text() {
    assert_eq!(chars_of("a\u{e9}c"), vec!['a', '\u{e9}', 'c']);
    assert_eq!(chars_of(""), Vec::<char>::new());
    let chars = chars_of("hello");
    assert_eq!(string_from(&chars, 1, 4), "ell");
    assert_eq!(string_from(&chars, 2, 2), "");
    assert_eq!(string_from(&chars, 0, 5), "hello");
}

#[test]
fn whitespace_is_what_unicode_says() {
    for c in [' ', '\t', '\n', '\r', '\u{b}', '\u{c}', '\u{85}', '\u{a0}', '\u{1680}', '\u{2000}',
        '\u{200a}', '\u{2028}', '\u{2029}', '\u{202f}', '\u{205f}', '\u{3000}']
    {
        assert!(is_whitespace(c));
    }
    for c in ['a', '0', ',', '\u{8}', '\u{e}', '\u{200b}', '\u{180e}', '\u{feff}'] {
        assert!(!is_whitespace(c));
    }
    let mut code = 0u32;
    while code < 0x11000 {
        if let Some(c) = char::from_u32(code) {
            assert_eq!(is_whitespace(c), c.is_whitespace());
        }
        code += 1;
    }
}

#[test]
fn digits_are_the_ten_of_ascii() {
    for c in ['0', '5', '9'] {
        assert!(is_digit(c));
    }
    for c in ['a', '/', ':', '\u{663}'] {
        assert!(!is_digit(c));
    }
}

#[test]
fn decimal_text_of_numbers() {
    let mut out = String::from("n=");
    push_decimal(&mut out, 0);
    push_decimal(&mut out, 907);
    push_decimal(&mut out, u64::MAX);
    assert_eq!(out, "n=090718446744073709551615");
    let mut signed = String::new();
    push_int(&mut signed, -15);
    push_int(&mut signed, 15);
    assert_eq!(signed, "-1515");
}

#[test]
fn decimal_value_of_digits() {
    let chars = chars_of("x00120y");
    assert_eq!(parse_decimal(&chars, 1, 6), Some(120));
    assert_eq!(parse_decimal(&chars, 1, 1), Some(0));
    let limit = chars_of("9223372036854775808");
    assert_eq!(parse_decimal(&limit, 0, 19), Some(9223372036854775808));
    let over = chars_of("9223372036854775809");
    assert_eq!(parse_decimal(&over, 0, 19), None);
    let long = chars_of("100000000000000000000");
    assert_eq!(parse_decimal(&long, 0, 21), None);
    assert_eq!(parse_decimal(&long, 1, 21), Some(0));
}
