use mal::printer::pr_str;
use mal::reader::{
    read_atom, read_form, read_str, read_string, skip_comment, tokenize, ParseError, Reader, Token,
};
use mal::text::chars_of;
use mal::types::MalType;

fn sym(name: &str) -> MalType {
    MalType::Symbol(name.to_string())
}

fn text(s: &str) -> MalType {
    MalType::String(s.to_string())
}

fn kinds(input: &str) -> Vec<String> {
    tokenize(input).unwrap().iter().map(|t| format!("{:?}", t)).collect()
}

#[test]
fn tokenize_splits_brackets_and_atoms() {
    assert_eq!(
        kinds("(+ 1 -2)"),
        vec!["LeftParen", "Symbol(\"+\")", "Number(1)", "Number(-2)", "RightParen"]
    );
    assert_eq!(kinds("[a]{b}"), vec![
        "LeftBracket",
        "Symbol(\"a\")",
        "RightBracket",
        "LeftBrace",
        "Symbol(\"b\")",
        "RightBrace"
    ]);
}

#[test]
fn tokenize_skips_blanks_commas_and_comments() {
    assert_eq!(kinds(" 1,,, 2 ; three\n 4"), vec!["Number(1)", "Number(2)", "Number(4)"]);
    assert_eq!(kinds("; only a comment"), Vec::<String>::new());
    assert_eq!(kinds("\u{a0}7\u{3000}"), vec!["Number(7)"]);
}

#[test]
fn tokenize_prefers_splice_unquote() {
    assert_eq!(kinds("~@x ~y"), vec![
        "SpliceUnquote",
        "Symbol(\"x\")",
        "Unquote",
        "Symbol(\"y\")"
    ]);
    assert_eq!(kinds("'`@^"), vec!["Quote", "Quasiquote", "Deref", "Meta"]);
}

#[test]
fn tokenize_tells_minus_from_a_negative_number() {
    assert_eq!(kinds("- -5 -a"), vec!["Symbol(\"-\")", "Number(-5)", "Symbol(\"-a\")"]);
    assert_eq!(kinds("12abc"), vec!["Number(12)", "Symbol(\"abc\")"]);
}

#[test]
fn tokenize_reads_keywords() {
    assert_eq!(kinds(":abc :a-b_1 :"), vec![
        "Keyword(\"abc\")",
        "Keyword(\"a-b_1\")",
        "Keyword(\"\")"
    ]);
    assert_eq!(kinds(":k+z"), vec!["Keyword(\"k\")", "Symbol(\"+z\")"]);
    assert_eq!(kinds(":\u{e9}t\u{e9}"), vec!["Keyword(\"\u{e9}t\u{e9}\")"]);
}

#[test]
fn tokenize_takes_any_other_run_as_a_symbol() {
    assert_eq!(kinds("#foo a:b <=? &"), vec![
        "Symbol(\"#foo\")",
        "Symbol(\"a:b\")",
        "Symbol(\"<=?\")",
        "Symbol(\"&\")"
    ]);
    assert_eq!(kinds("a&b"), vec!["Symbol(\"a\")", "Symbol(\"&\")", "Symbol(\"b\")"]);
}

#[test]
fn tokenize_bounds_integer_literals() {
    assert_eq!(kinds("9223372036854775807"), vec!["Number(9223372036854775807)"]);
    assert_eq!(kinds("-9223372036854775808"), vec!["Number(-9223372036854775808)"]);
    assert_eq!(kinds("0007"), vec!["Number(7)"]);
    assert_eq!(tokenize("9223372036854775808").unwrap_err(), ParseError::InvalidToken);
    assert_eq!(tokenize("-9223372036854775809").unwrap_err(), ParseError::InvalidToken);
    assert_eq!(
        tokenize("123456789012345678901234567890").unwrap_err(),
        ParseError::InvalidToken
    );
}

#[test]
fn string_literals_resolve_escapes() {
    assert_eq!(read_str("\"a\\nb\"").unwrap(), text("a\nb"));
    assert_eq!(read_str("\"a\\\\b\"").unwrap(), text("a\\b"));
    assert_eq!(read_str("\"say \\\"hi\\\"\"").unwrap(), text("say \"hi\""));
    assert_eq!(read_str("\"\\q\"").unwrap(), text("q"));
    assert_eq!(read_str("\"\"").unwrap(), text(""));
    assert_eq!(read_str("\"(; not a comment)\"").unwrap(), text("(; not a comment)"));
}

#[test]
fn read_string_gives_content_and_next_position() {
    let chars = chars_of("\"ab\\n\" rest");
    let (content, next) = read_string(&chars, 1).unwrap();
    assert_eq!(content, "ab\n");
    assert_eq!(next, 6);
    let open = chars_of("\"abc");
    assert_eq!(read_string(&open, 1).unwrap_err(), ParseError::UnterminatedString);
    let cut = chars_of("\"abc\\");
    assert_eq!(read_string(&cut, 1).unwrap_err(), ParseError::UnterminatedString);
}

#[test]
fn skip_comment_stops_at_the_end_of_the_line() {
    let chars = chars_of("; note\nx");
    assert_eq!(skip_comment(&chars, 0), 6);
    let open = chars_of("; note");
    assert_eq!(skip_comment(&open, 0), 6);
}

#[test]
fn unterminated_string_is_an_error() {
    assert_eq!(read_str("\"abc").unwrap_err(), ParseError::UnterminatedString);
    assert_eq!(read_str("(1 \"abc)").unwrap_err(), ParseError::UnterminatedString);
}

#[test]
fn empty_input_is_an_error() {
    assert_eq!(read_str("").unwrap_err(), ParseError::EmptyInput);
    assert_eq!(read_str("   ,, \n").unwrap_err(), ParseError::EmptyInput);
    assert_eq!(read_str("; nothing here").unwrap_err(), ParseError::EmptyInput);
}

#[test]
fn missing_closer_is_an_error() {
    assert_eq!(read_str("(1 2").unwrap_err(), ParseError::UnexpectedEof);
    assert_eq!(read_str("[1 2").unwrap_err(), ParseError::UnexpectedEof);
    assert_eq!(read_str("{:a 1").unwrap_err(), ParseError::UnexpectedEof);
    assert_eq!(read_str("{:a").unwrap_err(), ParseError::UnexpectedEof);
    assert_eq!(read_str("'").unwrap_err(), ParseError::UnexpectedEof);
    assert_eq!(read_str("^{:a 1}").unwrap_err(), ParseError::UnexpectedEof);
}

#[test]
fn stray_closer_is_an_error() {
    assert_eq!(read_str(")").unwrap_err(), ParseError::UnexpectedClosingDelimiter);
    assert_eq!(read_str("]").unwrap_err(), ParseError::UnexpectedClosingDelimiter);
    assert_eq!(read_str("}").unwrap_err(), ParseError::UnexpectedClosingDelimiter);
    assert_eq!(read_str("(1 ]").unwrap_err(), ParseError::UnexpectedClosingDelimiter);
    assert_eq!(read_str("{:a}").unwrap_err(), ParseError::UnexpectedClosingDelimiter);
}

#[test]
fn atoms_are_read() {
    assert_eq!(read_str("nil").unwrap(), MalType::Nil);
    assert_eq!(read_str("true").unwrap(), MalType::Bool(true));
    assert_eq!(read_str("false").unwrap(), MalType::Bool(false));
    assert_eq!(read_str("17").unwrap(), MalType::Number(17));
    assert_eq!(read_str("abc").unwrap(), sym("abc"));
    assert_eq!(read_str("nilly").unwrap(), sym("nilly"));
    assert_eq!(read_str(":kw").unwrap(), MalType::Keyword("kw".to_string()));
}

#[test]
fn read_atom_refuses_what_is_no_atom() {
    assert_eq!(read_atom(Token::Number(3)).unwrap(), MalType::Number(3));
    assert_eq!(read_atom(Token::Symbol("true".to_string())).unwrap(), MalType::Bool(true));
    assert_eq!(read_atom(Token::RightParen).unwrap_err(), ParseError::UnexpectedClosingDelimiter);
    assert_eq!(read_atom(Token::Quote).unwrap_err(), ParseError::InvalidToken);
    assert_eq!(read_atom(Token::LeftBrace).unwrap_err(), ParseError::InvalidToken);
}

#[test]
fn collections_are_read() {
    assert_eq!(
        read_str("(1 (2 3) [])").unwrap(),
        MalType::List(vec![
            MalType::Number(1),
            MalType::List(vec![MalType::Number(2), MalType::Number(3)]),
            MalType::Vector(vec![]),
        ])
    );
    assert_eq!(read_str("()").unwrap(), MalType::List(vec![]));
    assert_eq!(
        read_str("{:a 1 \"b\" (2)}").unwrap(),
        MalType::Dict(vec![
            (MalType::Keyword("a".to_string()), MalType::Number(1)),
            (text("b"), MalType::List(vec![MalType::Number(2)])),
        ])
    );
}

#[test]
fn reader_macros_wrap_the_next_form() {
    assert_eq!(read_str("'x").unwrap(), MalType::List(vec![sym("quote"), sym("x")]));
    assert_eq!(read_str("`x").unwrap(), MalType::List(vec![sym("quasiquote"), sym("x")]));
    assert_eq!(read_str("~x").unwrap(), MalType::List(vec![sym("unquote"), sym("x")]));
    assert_eq!(read_str("~@x").unwrap(), MalType::List(vec![sym("splice-unquote"), sym("x")]));
    assert_eq!(read_str("@x").unwrap(), MalType::List(vec![sym("deref"), sym("x")]));
    assert_eq!(
        read_str("''x").unwrap(),
        MalType::List(vec![sym("quote"), MalType::List(vec![sym("quote"), sym("x")])])
    );
}

#[test]
fn with_meta_lists_the_form_before_the_metadata() {
    assert_eq!(
        read_str("^{:a 1} [1 2]").unwrap(),
        MalType::List(vec![
            sym("with-meta"),
            MalType::Vector(vec![MalType::Number(1), MalType::Number(2)]),
            MalType::Dict(vec![(MalType::Keyword("a".to_string()), MalType::Number(1))]),
        ])
    );
}

#[test]
fn read_str_reads_the_first_form_only() {
    assert_eq!(read_str("1 2 3").unwrap(), MalType::Number(1));
    assert_eq!(read_str("(a) )").unwrap(), MalType::List(vec![sym("a")]));
}

#[test]
fn reader_walks_over_its_tokens() {
    let mut reader = Reader::new(tokenize("1 (2)").unwrap());
    assert!(matches!(reader.peek(), Some(Token::Number(1))));
    assert!(matches!(reader.next(), Some(Token::Number(1))));
    assert!(matches!(reader.peek(), Some(Token::LeftParen)));
    assert_eq!(read_form(&mut reader).unwrap(), MalType::List(vec![MalType::Number(2)]));
    assert!(reader.peek().is_none());
    assert!(reader.next().is_none());
    assert_eq!(read_form(&mut reader).unwrap_err(), ParseError::UnexpectedEof);
}

#[test]
fn printing_and_reading_again_gives_an_equal_value() {
    let sources = [
        "nil",
        "true",
        "false",
        "0",
        "-9223372036854775808",
        "9223372036854775807",
        "abc",
        "+",
        "-",
        "a:b",
        ":kw",
        ":",
        "\"\"",
        "\"a\\nb \\\\ \\\"q\\\"\"",
        "()",
        "[]",
        "{}",
        "(1 2 (3 [4 \"five\" :six] {:k (v) \"s\" -1}))",
        "'(a `b ~c ~@d @e)",
        "^{:m 1} x",
        "(fn* (a & rest) (list a rest))",
    ];
    for source in sources {
        let first = read_str(source).unwrap();
        let printed = pr_str(&first, true);
        let second = read_str(&printed).unwrap();
        assert_eq!(second, first);
        assert_eq!(pr_str(&second, true), printed);
    }
}

#[test]
fn reading_errors_have_a_message() {
    assert_eq!(ParseError::EmptyInput.message(), "empty input");
    assert_eq!(ParseError::UnterminatedString.message(), "unterminated string");
    assert_eq!(ParseError::UnexpectedEof.message(), "unexpected end of input");
    assert_eq!(ParseError::UnexpectedClosingDelimiter.message(), "unexpected closing delimiter");
    assert_eq!(ParseError::InvalidToken.message(), "invalid token");
}
