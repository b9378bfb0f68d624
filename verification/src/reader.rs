use crate::text::{
    chars_of, decimal_value, digit, is_digit, is_letter_or_digit, is_whitespace, letter_or_digit,
    magnitude_limit, parse_decimal, push_char, same_text, string_from, whitespace,
};
use crate::types::{group_value_views, pairs_of, values_of, MalType, Value};
use vstd::prelude::*;
use vstd::string::StringExecFns;

verus! {

/// Why a text could not be read.
#[derive(Debug, Clone, Copy, PartialEq, Eq, Structural)]
pub enum ParseError {
    /// The text holds no token: it is empty, or only blanks and comments.
    EmptyInput,
    /// A string literal is still open where the text ends.
    UnterminatedString,
    /// The text ends inside a form.
    UnexpectedEof,
    /// A closing bracket stands where a form should begin.
    UnexpectedClosingDelimiter,
    /// A token that stands for no value.
    InvalidToken,
}

/// The text of a reading error, for a reader.
pub open spec fn parse_message(e: ParseError) -> Seq<char> {
    match e {
        ParseError::EmptyInput => "empty input"@,
        ParseError::UnterminatedString => "unterminated string"@,
        ParseError::UnexpectedEof => "unexpected end of input"@,
        ParseError::UnexpectedClosingDelimiter => "unexpected closing delimiter"@,
        ParseError::InvalidToken => "invalid token"@,
    }
}

impl ParseError {
    /// The text of this error, for a reader.
    pub fn message(&self) -> (r: String)
        ensures
            r@ == parse_message(*self),
    {
        match self {
            ParseError::EmptyInput => String::from_str("empty input"),
            ParseError::UnterminatedString => String::from_str("unterminated string"),
            ParseError::UnexpectedEof => String::from_str("unexpected end of input"),
            ParseError::UnexpectedClosingDelimiter => String::from_str(
                "unexpected closing delimiter",
            ),
            ParseError::InvalidToken => String::from_str("invalid token"),
        }
    }
}

/// A token as a mathematical value.
pub enum Tok {
    LeftParen,
    RightParen,
    LeftBracket,
    RightBracket,
    LeftBrace,
    RightBrace,
    Quote,
    Quasiquote,
    Unquote,
    SpliceUnquote,
    Deref,
    Meta,
    Number(int),
    Symbol(Seq<char>),
    Str(Seq<char>),
    Keyword(Seq<char>),
}

/// A token of the surface syntax.
#[derive(Debug)]
pub enum Token {
    LeftParen,
    RightParen,
    LeftBracket,
    RightBracket,
    LeftBrace,
    RightBrace,
    Quote,
    Quasiquote,
    Unquote,
    SpliceUnquote,
    Deref,
    Meta,
    Number(i64),
    Symbol(String),
    String(String),
    Keyword(String),
}

impl View for Token {
    type V = Tok;

    open spec fn view(&self) -> Tok {
        match self {
            Token::LeftParen => Tok::LeftParen,
            Token::RightParen => Tok::RightParen,
            Token::LeftBracket => Tok::LeftBracket,
            Token::RightBracket => Tok::RightBracket,
            Token::LeftBrace => Tok::LeftBrace,
            Token::RightBrace => Tok::RightBrace,
            Token::Quote => Tok::Quote,
            Token::Quasiquote => Tok::Quasiquote,
            Token::Unquote => Tok::Unquote,
            Token::SpliceUnquote => Tok::SpliceUnquote,
            Token::Deref => Tok::Deref,
            Token::Meta => Tok::Meta,
            Token::Number(n) => Tok::Number(*n as int),
            Token::Symbol(s) => Tok::Symbol(s@),
            Token::String(s) => Tok::Str(s@),
            Token::Keyword(s) => Tok::Keyword(s@),
        }
    }
}

impl Clone for Token {
    fn clone(&self) -> (r: Self)
        ensures
            r@ == self@,
    {
        match self {
            Token::LeftParen => Token::LeftParen,
            Token::RightParen => Token::RightParen,
            Token::LeftBracket => Token::LeftBracket,
            Token::RightBracket => Token::RightBracket,
            Token::LeftBrace => Token::LeftBrace,
            Token::RightBrace => Token::RightBrace,
            Token::Quote => Token::Quote,
            Token::Quasiquote => Token::Quasiquote,
            Token::Unquote => Token::Unquote,
            Token::SpliceUnquote => Token::SpliceUnquote,
            Token::Deref => Token::Deref,
            Token::Meta => Token::Meta,
            Token::Number(n) => Token::Number(*n),
            Token::Symbol(s) => Token::Symbol(s.clone()),
            Token::String(s) => Token::String(s.clone()),
            Token::Keyword(s) => Token::Keyword(s.clone()),
        }
    }
}

/// The tokens of a sequence, as mathematical values.
pub open spec fn toks_of(tokens: Seq<Token>) -> Seq<Tok> {
    Seq::new(tokens.len(), |i: int| tokens[i]@)
}

/// The kinds of character that a token is scanned by.
#[derive(Clone, Copy, PartialEq, Eq, Structural)]
pub enum CharClass {
    /// A decimal digit.
    Digit,
    /// What may follow the colon of a keyword.
    Keyword,
    /// What may stand in a symbol.
    Symbol,
    /// Anything but the end of a line.
    Comment,
}

/// The characters that are a token by themselves.
pub open spec fn special(c: char) -> bool {
    ||| c == '('
    ||| c == ')'
    ||| c == '['
    ||| c == ']'
    ||| c == '{'
    ||| c == '}'
    ||| c == '\''
    ||| c == '`'
    ||| c == '~'
    ||| c == '@'
    ||| c == '^'
    ||| c == '&'
}

/// The characters that end a symbol.
pub open spec fn delimiter(c: char) -> bool {
    whitespace(c) || c == ',' || c == ';' || c == '"' || special(c)
}

/// Whether `c` belongs to the class `k`.
pub open spec fn in_class(k: CharClass, c: char) -> bool {
    match k {
        CharClass::Digit => digit(c),
        CharClass::Keyword => letter_or_digit(c) || c == '_' || c == '-',
        CharClass::Symbol => !delimiter(c),
        CharClass::Comment => c != '\n',
    }
}

/// The first position from `i` on whose character is not of class `k`, or the
/// end of `s`.
pub open spec fn scan(s: Seq<char>, i: int, k: CharClass) -> int
    decreases s.len() - i,
{
    if 0 <= i < s.len() && in_class(k, s[i]) {
        scan(s, i + 1, k)
    } else {
        i
    }
}

/// A scan ends at or after its start, and inside the text.
pub proof fn lemma_scan_bounds(s: Seq<char>, i: int, k: CharClass)
    ensures
        i <= scan(s, i, k),
        i <= s.len() ==> scan(s, i, k) <= s.len(),
    decreases s.len() - i,
{
    if 0 <= i < s.len() && in_class(k, s[i]) {
        lemma_scan_bounds(s, i + 1, k);
    }
}

/// What a character stands for after a backslash in a string literal.
pub open spec fn unescape(c: char) -> char {
    if c == 'n' {
        '\n'
    } else {
        c
    }
}

/// The content of a string literal and the position after its closing quote.
pub struct Literal {
    pub text: Seq<char>,
    pub next: int,
}

/// `c` in front of the content of a literal.
pub open spec fn with_char(c: char, rest: Result<Literal, ParseError>) -> Result<
    Literal,
    ParseError,
> {
    match rest {
        Ok(l) => Ok(Literal { text: seq![c] + l.text, next: l.next }),
        Err(e) => Err(e),
    }
}

/// The string literal whose content begins at position `i` of `s`, after the
/// opening quote. It ends at the first quote that no backslash precedes.
pub open spec fn string_body(s: Seq<char>, i: int) -> Result<Literal, ParseError>
    decreases s.len() - i,
{
    if i < 0 || i >= s.len() {
        Err(ParseError::UnterminatedString)
    } else if s[i] == '"' {
        Ok(Literal { text: Seq::empty(), next: i + 1 })
    } else if s[i] == '\\' {
        if i + 1 >= s.len() {
            Err(ParseError::UnterminatedString)
        } else {
            with_char(unescape(s[i + 1]), string_body(s, i + 2))
        }
    } else {
        with_char(s[i], string_body(s, i + 1))
    }
}

/// A string literal ends after its start, and inside the text.
pub proof fn lemma_string_bounds(s: Seq<char>, i: int)
    ensures
        string_body(s, i) matches Ok(l) ==> i < l.next <= s.len(),
    decreases s.len() - i,
{
    if i < 0 || i >= s.len() {
    } else if s[i] == '"' {
    } else if s[i] == '\\' {
        if i + 1 < s.len() {
            lemma_string_bounds(s, i + 2);
        }
    } else {
        lemma_string_bounds(s, i + 1);
    }
}

/// `first` in front of the tokens that follow, if there is no error among them.
pub open spec fn then_tokens(first: Seq<Tok>, rest: Result<Seq<Tok>, ParseError>) -> Result<
    Seq<Tok>,
    ParseError,
> {
    match rest {
        Ok(r) => Ok(first + r),
        Err(e) => Err(e),
    }
}

/// The token that a special character other than `~` stands for.
pub open spec fn special_tok(c: char) -> Tok {
    if c == '(' {
        Tok::LeftParen
    } else if c == ')' {
        Tok::RightParen
    } else if c == '[' {
        Tok::LeftBracket
    } else if c == ']' {
        Tok::RightBracket
    } else if c == '{' {
        Tok::LeftBrace
    } else if c == '}' {
        Tok::RightBrace
    } else if c == '\'' {
        Tok::Quote
    } else if c == '`' {
        Tok::Quasiquote
    } else if c == '@' {
        Tok::Deref
    } else if c == '^' {
        Tok::Meta
    } else {
        Tok::Symbol(seq![c])
    }
}

/// Whether an integer literal begins at position `i` of `s`: a digit, or a
/// minus sign and a digit.
pub open spec fn number_start(s: Seq<char>, i: int) -> bool {
    0 <= i < s.len() && (digit(s[i]) || (s[i] == '-' && i + 1 < s.len() && digit(
        s[i + 1],
    )))
}

/// The integer that a run of digits stands for, with or without a minus sign,
/// if it is a 64-bit signed integer.
pub open spec fn number_value(digits: Seq<char>, negative: bool) -> Option<int> {
    let m = decimal_value(digits);
    if negative {
        if m <= magnitude_limit() {
            Some(-(m as int))
        } else {
            None
        }
    } else {
        if m < magnitude_limit() {
            Some(m as int)
        } else {
            None
        }
    }
}

/// The tokens of `s` from position `i` on.
///
/// Blanks and commas separate tokens, and a semicolon starts a comment that
/// runs to the end of the line. An integer literal takes all the digits that
/// follow; one that is no 64-bit signed integer is an invalid token.
pub open spec fn lex(s: Seq<char>, i: int) -> Result<Seq<Tok>, ParseError>
    decreases s.len() - i,
{
    if i < 0 || i >= s.len() {
        Ok(Seq::empty())
    } else {
        let c = s[i];
        if whitespace(c) || c == ',' {
            lex(s, i + 1)
        } else if c == ';' {
            proof {
                lemma_scan_bounds(s, i + 1, CharClass::Comment);
            }
            lex(s, scan(s, i + 1, CharClass::Comment))
        } else if c == '"' {
            proof {
                lemma_string_bounds(s, i + 1);
            }
            match string_body(s, i + 1) {
                Ok(l) => then_tokens(seq![Tok::Str(l.text)], lex(s, l.next)),
                Err(e) => Err(e),
            }
        } else if c == '~' {
            if i + 1 < s.len() && s[i + 1] == '@' {
                then_tokens(seq![Tok::SpliceUnquote], lex(s, i + 2))
            } else {
                then_tokens(seq![Tok::Unquote], lex(s, i + 1))
            }
        } else if special(c) {
            then_tokens(seq![special_tok(c)], lex(s, i + 1))
        } else if c == ':' {
            proof {
                lemma_scan_bounds(s, i + 1, CharClass::Keyword);
            }
            let e = scan(s, i + 1, CharClass::Keyword);
            then_tokens(seq![Tok::Keyword(s.subrange(i + 1, e))], lex(s, e))
        } else if number_start(s, i) {
            let negative = c == '-';
            let start = if negative {
                i + 1
            } else {
                i
            };
            proof {
                lemma_scan_bounds(s, start + 1, CharClass::Digit);
            }
            let e = scan(s, start + 1, CharClass::Digit);
            match number_value(s.subrange(start, e), negative) {
                Some(n) => then_tokens(seq![Tok::Number(n)], lex(s, e)),
                None => Err(ParseError::InvalidToken),
            }
        } else {
            proof {
                lemma_scan_bounds(s, i + 1, CharClass::Symbol);
            }
            let e = scan(s, i + 1, CharClass::Symbol);
            then_tokens(seq![Tok::Symbol(s.subrange(i, e))], lex(s, e))
        }
    }
}


/// Whether `c` belongs to the class `k`.
fn class_has(k: CharClass, c: char) -> (r: bool)
    ensures
        r == in_class(k, c),
{
    match k {
        CharClass::Digit => is_digit(c),
        CharClass::Keyword => is_letter_or_digit(c) || c == '_' || c == '-',
        CharClass::Symbol => !is_delimiter(c),
        CharClass::Comment => c != '\n',
    }
}

/// Whether `c` is a token by itself.
fn is_special(c: char) -> (r: bool)
    ensures
        r == special(c),
{
    c == '(' || c == ')' || c == '[' || c == ']' || c == '{' || c == '}' || c == '\'' || c == '`'
        || c == '~' || c == '@' || c == '^' || c == '&'
}

/// Whether `c` ends a symbol.
fn is_delimiter(c: char) -> (r: bool)
    ensures
        r == delimiter(c),
{
    is_whitespace(c) || c == ',' || c == ';' || c == '"' || is_special(c)
}

/// The first position from `i` on whose character is not of class `k`.
fn scan_class(chars: &Vec<char>, i: usize, k: CharClass) -> (e: usize)
    requires
        i <= chars.len(),
    ensures
        e == scan(chars@, i as int, k),
        i <= e <= chars.len(),
{
    let mut e: usize = i;
    while e < chars.len() && class_has(k, chars[e])
        invariant
            i <= e <= chars.len(),
            scan(chars@, i as int, k) == scan(chars@, e as int, k),
        decreases chars.len() - e,
    {
        e += 1;
    }
    e
}

/// The position where the comment that holds position `pos` ends: the end of
/// its line, or of the text.
pub fn skip_comment(chars: &Vec<char>, pos: usize) -> (e: usize)
    requires
        pos <= chars.len(),
    ensures
        e == scan(chars@, pos as int, CharClass::Comment),
        pos <= e <= chars.len(),
{
    scan_class(chars, pos, CharClass::Comment)
}

/// Reads a string literal whose content begins at `pos`, after the opening
/// quote: its content with the escapes resolved, and the position after the
/// closing quote.
pub fn read_string(chars: &Vec<char>, pos: usize) -> (r: Result<(String, usize), ParseError>)
    requires
        pos <= chars.len(),
    ensures
        match r {
            Ok((text, next)) => string_body(chars@, pos as int) == Ok::<Literal, ParseError>(
                Literal { text: text@, next: next as int },
            ) && pos < next <= chars.len(),
            Err(e) => string_body(chars@, pos as int) == Err::<Literal, ParseError>(e),
        },
{
    let ghost s = chars@;
    let mut result = String::new();
    let mut i: usize = pos;
    loop
        invariant
            pos <= i <= chars.len(),
            s == chars@,
            string_body(s, pos as int) == match string_body(s, i as int) {
                Ok(l) => Ok::<Literal, ParseError>(Literal { text: result@ + l.text, next: l.next }),
                Err(e) => Err(e),
            },
        decreases chars.len() - i,
    {
        if i >= chars.len() {
            return Err(ParseError::UnterminatedString);
        }
        let c = chars[i];
        if c == '"' {
            assert(result@ + Seq::<char>::empty() =~= result@);
            return Ok((result, i + 1));
        }
        let ghost before = result@;
        if c == '\\' {
            if i + 1 >= chars.len() {
                return Err(ParseError::UnterminatedString);
            }
            let d = chars[i + 1];
            push_char(&mut result, if d == 'n' {
                '\n'
            } else {
                d
            });
            proof {
                let rest = string_body(s, i + 2);
                if let Ok(l) = rest {
                    assert(before + (seq![unescape(d)] + l.text) =~= result@ + l.text);
                }
            }
            i += 2;
        } else {
            push_char(&mut result, c);
            proof {
                let rest = string_body(s, i + 1);
                if let Ok(l) = rest {
                    assert(before + (seq![c] + l.text) =~= result@ + l.text);
                }
            }
            i += 1;
        }
    }
}

/// The token that a special character other than `~` stands for.
fn special_token(c: char) -> (t: Token)
    requires
        special(c),
        c != '~',
    ensures
        t@ == special_tok(c),
{
    if c == '(' {
        Token::LeftParen
    } else if c == ')' {
        Token::RightParen
    } else if c == '[' {
        Token::LeftBracket
    } else if c == ']' {
        Token::RightBracket
    } else if c == '{' {
        Token::LeftBrace
    } else if c == '}' {
        Token::RightBrace
    } else if c == '\'' {
        Token::Quote
    } else if c == '`' {
        Token::Quasiquote
    } else if c == '@' {
        Token::Deref
    } else if c == '^' {
        Token::Meta
    } else {
        let mut name = String::new();
        push_char(&mut name, c);
        assert(name@ =~= seq![c]);
        Token::Symbol(name)
    }
}

/// Reads the integer literal that begins at `pos`: the token, or `None` if it
/// is no 64-bit signed integer, and the position after its last digit.
fn read_number(chars: &Vec<char>, pos: usize) -> (r: (Option<i64>, usize))
    requires
        number_start(chars@, pos as int),
    ensures
        ({
            let negative = chars@[pos as int] == '-';
            let start = if negative {
                pos + 1
            } else {
                pos as int
            };
            &&& r.1 == scan(chars@, start + 1, CharClass::Digit)
            &&& pos < r.1 <= chars.len()
            &&& number_value(chars@.subrange(start, r.1 as int), negative) == match r.0 {
                Some(n) => Some(n as int),
                None => None,
            }
        }),
{
    let negative = chars[pos] == '-';
    let start: usize = if negative {
        pos + 1
    } else {
        pos
    };
    assert(start < chars.len() && digit(chars@[start as int]));
    let e = scan_class(chars, start + 1, CharClass::Digit);
    match parse_decimal(chars, start, e) {
        None => (None, e),
        Some(m) => {
            if negative {
                if m == 0x8000_0000_0000_0000 {
                    (Some(i64::MIN), e)
                } else {
                    (Some(-(m as i64)), e)
                }
            } else if m == 0x8000_0000_0000_0000 {
                (None, e)
            } else {
                (Some(m as i64), e)
            }
        },
    }
}

/// Splits a text into its tokens.
pub fn tokenize(input: &str) -> (r: Result<Vec<Token>, ParseError>)
    ensures
        match r {
            Ok(tokens) => lex(input@, 0) == Ok::<Seq<Tok>, ParseError>(toks_of(tokens@)),
            Err(e) => lex(input@, 0) == Err::<Seq<Tok>, ParseError>(e),
        },
{
    let chars = chars_of(input);
    let ghost s = chars@;
    let mut tokens: Vec<Token> = Vec::new();
    let mut i: usize = 0;
    assert(toks_of(tokens@) =~= Seq::<Tok>::empty());
    assert(lex(s, 0) == then_tokens(toks_of(tokens@), lex(s, 0))) by {
        if let Ok(r) = lex(s, 0) {
            assert(Seq::<Tok>::empty() + r =~= r);
        }
    }
    while i < chars.len()
        invariant
            i <= chars.len(),
            s == chars@,
            s == input@,
            lex(s, 0) == then_tokens(toks_of(tokens@), lex(s, i as int)),
        decreases chars.len() - i,
    {
        let c = chars[i];
        let ghost before = toks_of(tokens@);
        let ghost here = lex(s, i as int);
        let next: usize;
        if is_whitespace(c) || c == ',' {
            i += 1;
            continue;
        } else if c == ';' {
            i = skip_comment(&chars, i + 1);
            continue;
        } else if c == '"' {
            match read_string(&chars, i + 1) {
                Ok((text, after)) => {
                    tokens.push(Token::String(text));
                    next = after;
                },
                Err(e) => {
                    return Err(e);
                },
            }
        } else if c == '~' {
            if i + 1 < chars.len() && chars[i + 1] == '@' {
                tokens.push(Token::SpliceUnquote);
                next = i + 2;
            } else {
                tokens.push(Token::Unquote);
                next = i + 1;
            }
        } else if is_special(c) {
            tokens.push(special_token(c));
            next = i + 1;
        } else if c == ':' {
            let e = scan_class(&chars, i + 1, CharClass::Keyword);
            tokens.push(Token::Keyword(string_from(&chars, i + 1, e)));
            next = e;
        } else if is_digit(c) || (c == '-' && i + 1 < chars.len() && is_digit(chars[i + 1])) {
            let (number, e) = read_number(&chars, i);
            match number {
                Some(n) => {
                    tokens.push(Token::Number(n));
                    next = e;
                },
                None => {
                    return Err(ParseError::InvalidToken);
                },
            }
        } else {
            let e = scan_class(&chars, i + 1, CharClass::Symbol);
            tokens.push(Token::Symbol(string_from(&chars, i, e)));
            next = e;
        }
        proof {
            let t = tokens@[tokens.len() - 1]@;
            assert(toks_of(tokens@) =~= before + seq![t]);
            assert(here == then_tokens(seq![t], lex(s, next as int)));
            if let Ok(r) = lex(s, next as int) {
                assert(before + (seq![t] + r) =~= (before + seq![t]) + r);
            }
        }
        i = next;
    }
    proof {
        assert(toks_of(tokens@) + Seq::<Tok>::empty() =~= toks_of(tokens@));
    }
    Ok(tokens)
}


/// The value that a token stands for by itself.
///
/// The symbols `nil`, `true` and `false` stand for the values of those names.
/// A closing bracket stands for nothing, nor does a token that only
/// introduces a form.
pub open spec fn atom_of(t: Tok) -> Result<Value, ParseError> {
    match t {
        Tok::Number(n) => Ok(Value::Number(n)),
        Tok::Symbol(s) => if s == "nil"@ {
            Ok(Value::Nil)
        } else if s == "true"@ {
            Ok(Value::Bool(true))
        } else if s == "false"@ {
            Ok(Value::Bool(false))
        } else {
            Ok(Value::Symbol(s))
        },
        Tok::Str(s) => Ok(Value::Str(s)),
        Tok::Keyword(s) => Ok(Value::Keyword(s)),
        Tok::RightParen => Err(ParseError::UnexpectedClosingDelimiter),
        Tok::RightBracket => Err(ParseError::UnexpectedClosingDelimiter),
        Tok::RightBrace => Err(ParseError::UnexpectedClosingDelimiter),
        _ => Err(ParseError::InvalidToken),
    }
}

/// What reading one form gave, and the position of the token after it.
pub struct Parsed {
    pub result: Result<Value, ParseError>,
    pub next: int,
}

/// What reading the items of a list or vector gave, and the position after
/// the closing bracket.
pub struct ParsedItems {
    pub result: Result<Seq<Value>, ParseError>,
    pub next: int,
}

/// What reading the pairs of a map gave, and the position after the closing
/// brace.
pub struct ParsedPairs {
    pub result: Result<Seq<(Value, Value)>, ParseError>,
    pub next: int,
}

/// The list of the symbol `name` and the form that was read.
pub open spec fn wrapped(name: Seq<char>, p: Parsed) -> Parsed {
    match p.result {
        Ok(v) => Parsed { result: Ok(Value::List(seq![Value::Symbol(name), v])), next: p.next },
        Err(e) => p,
    }
}

/// `v` in front of the items that follow, if there is no error among them.
pub open spec fn then_items(v: Value, rest: ParsedItems) -> ParsedItems {
    match rest.result {
        Ok(vs) => ParsedItems { result: Ok(seq![v] + vs), next: rest.next },
        Err(e) => rest,
    }
}

/// A pair in front of the pairs that follow, if there is no error among them.
pub open spec fn then_pairs(p: (Value, Value), rest: ParsedPairs) -> ParsedPairs {
    match rest.result {
        Ok(ps) => ParsedPairs { result: Ok(seq![p] + ps), next: rest.next },
        Err(e) => rest,
    }
}

/// The form that begins at position `pos` of `toks`.
///
/// A quote sign reads the form after it and wraps it in a list; `^` reads the
/// metadata first and the form second, and lists the form first.
pub open spec fn parse_form(toks: Seq<Tok>, pos: int) -> Parsed
    decreases toks.len() - pos, 0nat,
{
    if pos < 0 || pos >= toks.len() {
        Parsed { result: Err(ParseError::UnexpectedEof), next: pos }
    } else {
        match toks[pos] {
            Tok::Quote => wrapped("quote"@, parse_form(toks, pos + 1)),
            Tok::Quasiquote => wrapped("quasiquote"@, parse_form(toks, pos + 1)),
            Tok::Unquote => wrapped("unquote"@, parse_form(toks, pos + 1)),
            Tok::SpliceUnquote => wrapped("splice-unquote"@, parse_form(toks, pos + 1)),
            Tok::Deref => wrapped("deref"@, parse_form(toks, pos + 1)),
            Tok::Meta => {
                let m = parse_form(toks, pos + 1);
                match m.result {
                    Err(e) => m,
                    Ok(meta) => if m.next <= pos || m.next > toks.len() {
                        Parsed { result: Err(ParseError::InvalidToken), next: m.next }
                    } else {
                        let f = parse_form(toks, m.next);
                        match f.result {
                            Err(e) => f,
                            Ok(form) => Parsed {
                                result: Ok(
                                    Value::List(seq![Value::Symbol("with-meta"@), form, meta]),
                                ),
                                next: f.next,
                            },
                        }
                    },
                }
            },
            Tok::LeftParen => {
                let r = parse_items(toks, pos + 1, Tok::RightParen);
                match r.result {
                    Ok(vs) => Parsed { result: Ok(Value::List(vs)), next: r.next },
                    Err(e) => Parsed { result: Err(e), next: r.next },
                }
            },
            Tok::LeftBracket => {
                let r = parse_items(toks, pos + 1, Tok::RightBracket);
                match r.result {
                    Ok(vs) => Parsed { result: Ok(Value::Vector(vs)), next: r.next },
                    Err(e) => Parsed { result: Err(e), next: r.next },
                }
            },
            Tok::LeftBrace => {
                let r = parse_pairs(toks, pos + 1);
                match r.result {
                    Ok(ps) => Parsed { result: Ok(Value::Dict(ps)), next: r.next },
                    Err(e) => Parsed { result: Err(e), next: r.next },
                }
            },
            t => Parsed { result: atom_of(t), next: pos + 1 },
        }
    }
}

/// The forms from position `pos` up to the closing bracket `close`.
pub open spec fn parse_items(toks: Seq<Tok>, pos: int, close: Tok) -> ParsedItems
    decreases toks.len() - pos, 1nat,
{
    if pos < 0 || pos >= toks.len() {
        ParsedItems { result: Err(ParseError::UnexpectedEof), next: pos }
    } else if toks[pos] == close {
        ParsedItems { result: Ok(Seq::empty()), next: pos + 1 }
    } else {
        let f = parse_form(toks, pos);
        match f.result {
            Err(e) => ParsedItems { result: Err(e), next: f.next },
            Ok(v) => if f.next <= pos || f.next > toks.len() {
                ParsedItems { result: Err(ParseError::InvalidToken), next: f.next }
            } else {
                then_items(v, parse_items(toks, f.next, close))
            },
        }
    }
}

/// The keys and values from position `pos` up to the closing brace.
pub open spec fn parse_pairs(toks: Seq<Tok>, pos: int) -> ParsedPairs
    decreases toks.len() - pos, 1nat,
{
    if pos < 0 || pos >= toks.len() {
        ParsedPairs { result: Err(ParseError::UnexpectedEof), next: pos }
    } else if toks[pos] == Tok::RightBrace {
        ParsedPairs { result: Ok(Seq::empty()), next: pos + 1 }
    } else {
        let k = parse_form(toks, pos);
        match k.result {
            Err(e) => ParsedPairs { result: Err(e), next: k.next },
            Ok(key) => if k.next <= pos {
                ParsedPairs { result: Err(ParseError::InvalidToken), next: k.next }
            } else if k.next >= toks.len() {
                ParsedPairs { result: Err(ParseError::UnexpectedEof), next: k.next }
            } else {
                let v = parse_form(toks, k.next);
                match v.result {
                    Err(e) => ParsedPairs { result: Err(e), next: v.next },
                    Ok(val) => if v.next <= k.next || v.next > toks.len() {
                        ParsedPairs { result: Err(ParseError::InvalidToken), next: v.next }
                    } else {
                        then_pairs((key, val), parse_pairs(toks, v.next))
                    },
                }
            },
        }
    }
}

/// Reading a form moves on by at least one token, and not past the end.
pub proof fn lemma_parse_advances(toks: Seq<Tok>, pos: int)
    requires
        0 <= pos,
    ensures
        parse_form(toks, pos).result is Ok ==> pos < parse_form(toks, pos).next <= toks.len(),
        pos <= parse_form(toks, pos).next,
    decreases toks.len() - pos, 0nat,
{
    if pos < toks.len() {
        match toks[pos] {
            Tok::Quote => lemma_parse_advances(toks, pos + 1),
            Tok::Quasiquote => lemma_parse_advances(toks, pos + 1),
            Tok::Unquote => lemma_parse_advances(toks, pos + 1),
            Tok::SpliceUnquote => lemma_parse_advances(toks, pos + 1),
            Tok::Deref => lemma_parse_advances(toks, pos + 1),
            Tok::Meta => {
                lemma_parse_advances(toks, pos + 1);
                let m = parse_form(toks, pos + 1);
                if m.result is Ok {
                    lemma_parse_advances(toks, m.next);
                }
            },
            Tok::LeftParen => lemma_items_advance(toks, pos + 1, Tok::RightParen),
            Tok::LeftBracket => lemma_items_advance(toks, pos + 1, Tok::RightBracket),
            Tok::LeftBrace => lemma_pairs_advance(toks, pos + 1),
            _ => {},
        }
    }
}

/// Reading the items of a list or vector moves on past its closing bracket.
pub proof fn lemma_items_advance(toks: Seq<Tok>, pos: int, close: Tok)
    requires
        0 <= pos,
    ensures
        parse_items(toks, pos, close).result is Ok ==> pos < parse_items(toks, pos, close).next
            <= toks.len(),
        pos <= parse_items(toks, pos, close).next,
    decreases toks.len() - pos, 1nat,
{
    if pos < toks.len() && toks[pos] != close {
        lemma_parse_advances(toks, pos);
        let f = parse_form(toks, pos);
        if f.result is Ok {
            lemma_items_advance(toks, f.next, close);
        }
    }
}

/// Reading the pairs of a map moves on past its closing brace.
pub proof fn lemma_pairs_advance(toks: Seq<Tok>, pos: int)
    requires
        0 <= pos,
    ensures
        parse_pairs(toks, pos).result is Ok ==> pos < parse_pairs(toks, pos).next <= toks.len(),
        pos <= parse_pairs(toks, pos).next,
    decreases toks.len() - pos, 1nat,
{
    if pos < toks.len() && toks[pos] != Tok::RightBrace {
        lemma_parse_advances(toks, pos);
        let k = parse_form(toks, pos);
        if k.result is Ok && k.next < toks.len() {
            lemma_parse_advances(toks, k.next);
            let v = parse_form(toks, k.next);
            if v.result is Ok {
                lemma_pairs_advance(toks, v.next);
            }
        }
    }
}

/// The first form of a text.
pub open spec fn read_spec(s: Seq<char>) -> Result<Value, ParseError> {
    match lex(s, 0) {
        Err(e) => Err(e),
        Ok(toks) => if toks.len() == 0 {
            Err(ParseError::EmptyInput)
        } else {
            parse_form(toks, 0).result
        },
    }
}

/// The value of what a reading function returned.
pub open spec fn read_value(r: Result<MalType, ParseError>) -> Result<Value, ParseError> {
    match r {
        Ok(m) => Ok(m@),
        Err(e) => Err(e),
    }
}


/// A sequence of tokens and the position of the next one to read.
pub struct Reader {
    tokens: Vec<Token>,
    position: usize,
}

impl Reader {
    /// The tokens that this reader holds.
    pub closed spec fn toks(&self) -> Seq<Tok> {
        toks_of(self.tokens@)
    }

    /// The position of the next token to read.
    pub closed spec fn pos(&self) -> int {
        self.position as int
    }

    /// A reader at the first of `tokens`.
    pub fn new(tokens: Vec<Token>) -> (r: Self)
        ensures
            r.toks() == toks_of(tokens@),
            r.pos() == 0,
    {
        Reader { tokens, position: 0 }
    }

    /// The next token, which is then behind the reader; `None` at the end.
    pub fn next(&mut self) -> (r: Option<Token>)
        ensures
            final(self).toks() == old(self).toks(),
            match r {
                Some(t) => old(self).pos() < old(self).toks().len() && t@ == old(self).toks()[old(
                    self,
                ).pos()] && final(self).pos() == old(self).pos() + 1,
                None => old(self).pos() >= old(self).toks().len() && final(self).pos() == old(
                    self,
                ).pos(),
            },
    {
        if self.position < self.tokens.len() {
            let token = self.tokens[self.position].clone();
            self.position += 1;
            Some(token)
        } else {
            None
        }
    }

    /// The next token, which stays in front of the reader; `None` at the end.
    pub fn peek(&self) -> (r: Option<&Token>)
        ensures
            match r {
                Some(t) => 0 <= self.pos() < self.toks().len() && t@ == self.toks()[self.pos()],
                None => self.pos() >= self.toks().len(),
            },
            0 <= self.pos(),
    {
        if self.position < self.tokens.len() {
            Some(&self.tokens[self.position])
        } else {
            None
        }
    }
}

/// The value that a token stands for by itself.
pub fn read_atom(token: Token) -> (r: Result<MalType, ParseError>)
    ensures
        read_value(r) == atom_of(token@),
{
    match token {
        Token::Number(n) => Ok(MalType::Number(n)),
        Token::Symbol(s) => {
            if same_text(s.as_str(), "nil") {
                Ok(MalType::Nil)
            } else if same_text(s.as_str(), "true") {
                Ok(MalType::Bool(true))
            } else if same_text(s.as_str(), "false") {
                Ok(MalType::Bool(false))
            } else {
                Ok(MalType::Symbol(s))
            }
        },
        Token::String(s) => Ok(MalType::String(s)),
        Token::Keyword(k) => Ok(MalType::Keyword(k)),
        Token::RightParen => Err(ParseError::UnexpectedClosingDelimiter),
        Token::RightBracket => Err(ParseError::UnexpectedClosingDelimiter),
        Token::RightBrace => Err(ParseError::UnexpectedClosingDelimiter),
        _ => Err(ParseError::InvalidToken),
    }
}

/// The items already read in front of what reading the rest gives.
pub open spec fn items_then(first: Seq<Value>, rest: ParsedItems) -> ParsedItems {
    match rest.result {
        Ok(vs) => ParsedItems { result: Ok(first + vs), next: rest.next },
        Err(e) => rest,
    }
}

/// The pairs already read in front of what reading the rest gives.
pub open spec fn pairs_then(first: Seq<(Value, Value)>, rest: ParsedPairs) -> ParsedPairs {
    match rest.result {
        Ok(ps) => ParsedPairs { result: Ok(first + ps), next: rest.next },
        Err(e) => rest,
    }
}

/// The closing bracket of a list, or of a vector.
pub open spec fn closing(vector: bool) -> Tok {
    if vector {
        Tok::RightBracket
    } else {
        Tok::RightParen
    }
}

/// Reads forms up to the closing bracket of a list or of a vector, and reads
/// that bracket.
fn read_sequence(reader: &mut Reader, vector: bool) -> (r: Result<Vec<MalType>, ParseError>)
    ensures
        final(reader).toks() == old(reader).toks(),
        final(reader).pos() == parse_items(
            old(reader).toks(),
            old(reader).pos(),
            closing(vector),
        ).next,
        match r {
            Ok(items) => parse_items(
                old(reader).toks(),
                old(reader).pos(),
                closing(vector),
            ).result == Ok::<Seq<Value>, ParseError>(values_of(items@)),
            Err(e) => parse_items(old(reader).toks(), old(reader).pos(), closing(vector)).result
                == Err::<Seq<Value>, ParseError>(e),
        },
    decreases old(reader).toks().len() - old(reader).pos(), 1nat,
{
    let ghost toks = reader.toks();
    let ghost start = reader.pos();
    let ghost close = closing(vector);
    let mut items: Vec<MalType> = Vec::new();
    proof {
        let whole = parse_items(toks, start, close);
        assert(values_of(items@) =~= Seq::<Value>::empty());
        if let Ok(vs) = whole.result {
            assert(Seq::<Value>::empty() + vs =~= vs);
        }
    }
    loop
        invariant
            reader.toks() == toks,
            start <= reader.pos(),
            0 <= start,
            close == closing(vector),
            toks == old(reader).toks(),
            start == old(reader).pos(),
            parse_items(toks, start, close) == items_then(
                values_of(items@),
                parse_items(toks, reader.pos(), close),
            ),
        decreases toks.len() - reader.pos(),
    {
        let ghost pos = reader.pos();
        let ghost before = values_of(items@);
        let at_end = match reader.peek() {
            None => {
                return Err(ParseError::UnexpectedEof);
            },
            Some(Token::RightParen) => !vector,
            Some(Token::RightBracket) => vector,
            Some(_) => false,
        };
        if at_end {
            let _ = reader.next();
            assert(before + Seq::<Value>::empty() =~= before);
            return Ok(items);
        }
        assert(toks[pos] != close);
        proof {
            lemma_parse_advances(toks, pos);
        }
        match read_form(reader) {
            Err(e) => {
                return Err(e);
            },
            Ok(item) => {
                proof {
                    let rest = parse_items(toks, reader.pos(), close);
                    assert(values_of(items@.push(item)) =~= before + seq![item@]);
                    if let Ok(vs) = rest.result {
                        assert(before + (seq![item@] + vs) =~= (before + seq![item@]) + vs);
                    }
                }
                items.push(item);
            },
        }
    }
}

/// Reads the items of a list, after its opening parenthesis.
pub fn read_list(reader: &mut Reader) -> (r: Result<MalType, ParseError>)
    ensures
        final(reader).toks() == old(reader).toks(),
        final(reader).pos() == parse_items(old(reader).toks(), old(reader).pos(), Tok::RightParen).next,
        match r {
            Ok(m) => parse_items(old(reader).toks(), old(reader).pos(), Tok::RightParen).result
                matches Ok(vs) && m@ == Value::List(vs),
            Err(e) => parse_items(old(reader).toks(), old(reader).pos(), Tok::RightParen).result
                == Err::<Seq<Value>, ParseError>(e),
        },
    decreases old(reader).toks().len() - old(reader).pos(), 2nat,
{
    broadcast use group_value_views;

    match read_sequence(reader, false) {
        Ok(items) => Ok(MalType::List(items)),
        Err(e) => Err(e),
    }
}

/// Reads the items of a vector, after its opening bracket.
pub fn read_vector(reader: &mut Reader) -> (r: Result<MalType, ParseError>)
    ensures
        final(reader).toks() == old(reader).toks(),
        final(reader).pos() == parse_items(
            old(reader).toks(),
            old(reader).pos(),
            Tok::RightBracket,
        ).next,
        match r {
            Ok(m) => parse_items(old(reader).toks(), old(reader).pos(), Tok::RightBracket).result
                matches Ok(vs) && m@ == Value::Vector(vs),
            Err(e) => parse_items(old(reader).toks(), old(reader).pos(), Tok::RightBracket).result
                == Err::<Seq<Value>, ParseError>(e),
        },
    decreases old(reader).toks().len() - old(reader).pos(), 2nat,
{
    broadcast use group_value_views;

    match read_sequence(reader, true) {
        Ok(items) => Ok(MalType::Vector(items)),
        Err(e) => Err(e),
    }
}

/// Reads the keys and values of a map, after its opening brace.
pub fn read_hash_map(reader: &mut Reader) -> (r: Result<MalType, ParseError>)
    ensures
        final(reader).toks() == old(reader).toks(),
        final(reader).pos() == parse_pairs(old(reader).toks(), old(reader).pos()).next,
        match r {
            Ok(m) => parse_pairs(old(reader).toks(), old(reader).pos()).result matches Ok(ps)
                && m@ == Value::Dict(ps),
            Err(e) => parse_pairs(old(reader).toks(), old(reader).pos()).result == Err::<
                Seq<(Value, Value)>,
                ParseError,
            >(e),
        },
    decreases old(reader).toks().len() - old(reader).pos(), 1nat,
{
    broadcast use group_value_views;

    let ghost toks = reader.toks();
    let ghost start = reader.pos();
    let mut pairs: Vec<(MalType, MalType)> = Vec::new();
    proof {
        let whole = parse_pairs(toks, start);
        assert(pairs_of(pairs@) =~= Seq::<(Value, Value)>::empty());
        if let Ok(ps) = whole.result {
            assert(Seq::<(Value, Value)>::empty() + ps =~= ps);
        }
    }
    loop
        invariant
            reader.toks() == toks,
            start <= reader.pos(),
            0 <= start,
            toks == old(reader).toks(),
            start == old(reader).pos(),
            parse_pairs(toks, start) == pairs_then(
                pairs_of(pairs@),
                parse_pairs(toks, reader.pos()),
            ),
        decreases toks.len() - reader.pos(),
    {
        let ghost pos = reader.pos();
        let ghost before = pairs_of(pairs@);
        let at_end = match reader.peek() {
            None => {
                return Err(ParseError::UnexpectedEof);
            },
            Some(Token::RightBrace) => true,
            Some(_) => false,
        };
        if at_end {
            let _ = reader.next();
            assert(before + Seq::<(Value, Value)>::empty() =~= before);
            proof {
                crate::types::lemma_dict_value(pairs);
            }
            return Ok(MalType::Dict(pairs));
        }
        proof {
            lemma_parse_advances(toks, pos);
        }
        let key = match read_form(reader) {
            Err(e) => {
                return Err(e);
            },
            Ok(key) => key,
        };
        let ghost mid = reader.pos();
        if reader.peek().is_none() {
            return Err(ParseError::UnexpectedEof);
        }
        proof {
            lemma_parse_advances(toks, mid);
        }
        let value = match read_form(reader) {
            Err(e) => {
                return Err(e);
            },
            Ok(value) => value,
        };
        proof {
            let rest = parse_pairs(toks, reader.pos());
            let p = (key@, value@);
            assert(pairs_of(pairs@.push((key, value))) =~= before + seq![p]);
            if let Ok(ps) = rest.result {
                assert(before + (seq![p] + ps) =~= (before + seq![p]) + ps);
            }
        }
        pairs.push((key, value));
    }
}

/// The list of the symbol `name` and `form`.
fn quoted(name: &str, form: MalType) -> (r: MalType)
    ensures
        r@ == Value::List(seq![Value::Symbol(name@), form@]),
{
    broadcast use group_value_views;

    let mut items: Vec<MalType> = Vec::new();
    items.push(MalType::Symbol(String::from_str(name)));
    items.push(form);
    assert(values_of(items@) =~= seq![Value::Symbol(name@), form@]);
    MalType::List(items)
}

/// Reads the form after a quote sign and wraps it in a list that `name` heads.
fn read_quoted(reader: &mut Reader, name: &str) -> (r: Result<MalType, ParseError>)
    requires
        0 <= old(reader).pos() <= old(reader).toks().len(),
    ensures
        final(reader).toks() == old(reader).toks(),
        final(reader).pos() == wrapped(
            name@,
            parse_form(old(reader).toks(), old(reader).pos()),
        ).next,
        read_value(r) == wrapped(name@, parse_form(old(reader).toks(), old(reader).pos())).result,
    decreases old(reader).toks().len() - old(reader).pos(), 1nat,
{
    match read_form(reader) {
        Ok(form) => Ok(quoted(name, form)),
        Err(e) => Err(e),
    }
}

/// Reads one form.
pub fn read_form(reader: &mut Reader) -> (r: Result<MalType, ParseError>)
    ensures
        final(reader).toks() == old(reader).toks(),
        final(reader).pos() == parse_form(old(reader).toks(), old(reader).pos()).next,
        read_value(r) == parse_form(old(reader).toks(), old(reader).pos()).result,
    decreases old(reader).toks().len() - old(reader).pos(), 0nat,
{
    broadcast use group_value_views;

    let ghost toks = reader.toks();
    let ghost pos = reader.pos();
    match reader.next() {
        None => Err(ParseError::UnexpectedEof),
        Some(Token::Quote) => read_quoted(reader, "quote"),
        Some(Token::Quasiquote) => read_quoted(reader, "quasiquote"),
        Some(Token::Unquote) => read_quoted(reader, "unquote"),
        Some(Token::SpliceUnquote) => read_quoted(reader, "splice-unquote"),
        Some(Token::Deref) => read_quoted(reader, "deref"),
        Some(Token::Meta) => {
            proof {
                lemma_parse_advances(toks, pos + 1);
            }
            let meta = match read_form(reader) {
                Err(e) => {
                    return Err(e);
                },
                Ok(meta) => meta,
            };
            let form = match read_form(reader) {
                Err(e) => {
                    return Err(e);
                },
                Ok(form) => form,
            };
            let mut items: Vec<MalType> = Vec::new();
            items.push(MalType::Symbol(String::from_str("with-meta")));
            let ghost fv = form@;
            let ghost mv = meta@;
            items.push(form);
            items.push(meta);
            assert(values_of(items@) =~= seq![Value::Symbol("with-meta"@), fv, mv]);
            Ok(MalType::List(items))
        },
        Some(Token::LeftParen) => read_list(reader),
        Some(Token::LeftBracket) => read_vector(reader),
        Some(Token::LeftBrace) => read_hash_map(reader),
        Some(token) => read_atom(token),
    }
}

/// Reads the first form of a text.
pub fn read_str(input: &str) -> (r: Result<MalType, ParseError>)
    ensures
        read_value(r) == read_spec(input@),
{
    let tokens = match tokenize(input) {
        Err(e) => {
            return Err(e);
        },
        Ok(tokens) => tokens,
    };
    if tokens.len() == 0 {
        return Err(ParseError::EmptyInput);
    }
    let mut reader = Reader::new(tokens);
    read_form(&mut reader)
}

} // verus!
