use crate::printer::{escape_char, escaped, joined, joined_pairs, pair_text, print_spec};
use crate::reader::{
    atom_of, delimiter, in_class, lemma_scan_bounds, lemma_string_bounds, lex, number_start,
    number_value, parse_form, parse_items, parse_pairs, read_spec, scan, special, special_tok,
    string_body, then_tokens, wrapped, CharClass, Literal, Parsed, ParsedItems, ParsedPairs,
    ParseError, Tok,
};
use crate::text::{decimal_digits, decimal_value, digit, digit_char, int_text, whitespace};
use crate::types::Value;
use vstd::prelude::*;

verus! {

/// A name that the tokenizer reads as one symbol token: not empty, without a
/// delimiter in it, and beginning like neither a keyword nor a number.
pub open spec fn symbol_run(s: Seq<char>) -> bool {
    &&& s.len() > 0
    &&& forall|i: int| 0 <= i < s.len() ==> !delimiter(#[trigger] s[i])
    &&& s[0] != ':'
    &&& !digit(s[0])
    &&& !(s[0] == '-' && s.len() > 1 && digit(s[1]))
}

/// The names that a symbol read from a text can have: `&`, or a run that the
/// tokenizer reads as one symbol and that is none of `nil`, `true`, `false`.
pub open spec fn valid_symbol(s: Seq<char>) -> bool {
    s == seq!['&'] || (symbol_run(s) && s != "nil"@ && s != "true"@ && s != "false"@)
}

/// The names that a keyword read from a text can have.
pub open spec fn valid_keyword(k: Seq<char>) -> bool {
    forall|i: int| 0 <= i < k.len() ==> in_class(CharClass::Keyword, #[trigger] k[i])
}

/// The values that a text can stand for: numbers of 64 bits, strings,
/// symbols and keywords with names that can be read, `nil`, booleans, and
/// lists, vectors and maps of such values.
pub open spec fn readable(v: Value) -> bool
    decreases v,
{
    match v {
        Value::Nil => true,
        Value::Bool(_) => true,
        Value::Number(n) => i64::MIN <= n <= i64::MAX,
        Value::Symbol(s) => valid_symbol(s),
        Value::Str(_) => true,
        Value::Keyword(k) => valid_keyword(k),
        Value::List(items) => forall|i: int| 0 <= i < items.len() ==> readable(#[trigger] items[i]),
        Value::Vector(items) => forall|i: int|
            0 <= i < items.len() ==> readable(#[trigger] items[i]),
        Value::Dict(pairs) => forall|i: int|
            0 <= i < pairs.len() ==> readable((#[trigger] pairs[i]).0) && readable(pairs[i].1),
        Value::Function { .. } => false,
    }
}

/// The tokens of the readable text of a value.
pub open spec fn tokens_of(v: Value) -> Seq<Tok>
    decreases v,
{
    match v {
        Value::Nil => seq![Tok::Symbol("nil"@)],
        Value::Bool(b) => if b {
            seq![Tok::Symbol("true"@)]
        } else {
            seq![Tok::Symbol("false"@)]
        },
        Value::Number(n) => seq![Tok::Number(n)],
        Value::Symbol(s) => seq![Tok::Symbol(s)],
        Value::Str(s) => seq![Tok::Str(s)],
        Value::Keyword(k) => seq![Tok::Keyword(k)],
        Value::List(items) => seq![Tok::LeftParen] + flat(items) + seq![Tok::RightParen],
        Value::Vector(items) => seq![Tok::LeftBracket] + flat(items) + seq![Tok::RightBracket],
        Value::Dict(pairs) => seq![Tok::LeftBrace] + flat_pairs(pairs) + seq![Tok::RightBrace],
        Value::Function { .. } => Seq::empty(),
    }
}

/// The tokens of the items, one item after the other.
pub open spec fn flat(items: Seq<Value>) -> Seq<Tok>
    decreases items,
{
    if items.len() == 0 {
        Seq::empty()
    } else {
        flat(items.drop_last()) + tokens_of(items.last())
    }
}

/// The tokens of the keys and values, one pair after the other.
pub open spec fn flat_pairs(pairs: Seq<(Value, Value)>) -> Seq<Tok>
    decreases pairs,
{
    if pairs.len() == 0 {
        Seq::empty()
    } else {
        flat_pairs(pairs.drop_last()) + pair_tokens(pairs.last())
    }
}

/// The tokens of a key and of its value.
pub open spec fn pair_tokens(p: (Value, Value)) -> Seq<Tok>
    decreases p,
{
    tokens_of(p.0) + tokens_of(p.1)
}

/// The text `p` stands in `t` at position `i`.
pub open spec fn occurs(t: Seq<char>, i: int, p: Seq<char>) -> bool {
    &&& 0 <= i
    &&& i + p.len() <= t.len()
    &&& forall|k: int| 0 <= k < p.len() ==> #[trigger] p[k] == t[i + k]
}

/// A token that ends before position `j` of `t` ends there whatever it is:
/// the text ends, or a blank or a closing bracket follows.
pub open spec fn ends_token(t: Seq<char>, j: int) -> bool {
    j >= t.len() || t[j] == ' ' || t[j] == ')' || t[j] == ']' || t[j] == '}'
}

/// A run of characters of one class is scanned to its end.
pub proof fn lemma_scan_run(t: Seq<char>, a: int, b: int, k: CharClass)
    requires
        0 <= a <= b <= t.len(),
        forall|j: int| a <= j < b ==> in_class(k, #[trigger] t[j]),
        b == t.len() || !in_class(k, t[b]),
    ensures
        scan(t, a, k) == b,
    decreases b - a,
{
    if a < b {
        lemma_scan_run(t, a + 1, b, k);
    }
}

/// What ends a token belongs to no token.
pub proof fn lemma_token_end(t: Seq<char>, j: int, k: CharClass)
    requires
        0 <= j,
        ends_token(t, j),
        k != CharClass::Comment,
    ensures
        j >= t.len() || !in_class(k, t[j]),
{
}

/// A symbol in a text is read as one symbol token.
pub proof fn lemma_lex_symbol(t: Seq<char>, i: int, s: Seq<char>)
    requires
        symbol_run(s) || s == seq!['&'],
        occurs(t, i, s),
        ends_token(t, i + s.len()),
    ensures
        lex(t, i) == then_tokens(seq![Tok::Symbol(s)], lex(t, i + s.len())),
{
    let c = t[i];
    assert(c == s[0]);
    if s == seq!['&'] {
        assert(special_tok(c) == Tok::Symbol(seq![c]));
        assert(seq![c] =~= s);
    } else {
        let e = i + s.len();
        assert(!delimiter(c));
        if s.len() > 1 {
            assert(t[i + 1] == s[1]);
        }
        assert(!number_start(t, i));
        assert forall|j: int| i + 1 <= j < e implies in_class(
            CharClass::Symbol,
            #[trigger] t[j],
        ) by {
            assert(t[j] == s[j - i]);
        }
        lemma_token_end(t, e, CharClass::Symbol);
        lemma_scan_run(t, i + 1, e, CharClass::Symbol);
        assert(t.subrange(i, e) =~= s);
    }
}

/// A keyword in a text is read as one keyword token.
pub proof fn lemma_lex_keyword(t: Seq<char>, i: int, k: Seq<char>)
    requires
        valid_keyword(k),
        occurs(t, i, seq![':'] + k),
        ends_token(t, i + 1 + k.len()),
    ensures
        lex(t, i) == then_tokens(seq![Tok::Keyword(k)], lex(t, i + 1 + k.len())),
{
    let p = seq![':'] + k;
    let e = i + 1 + k.len();
    assert(t[i] == p[0]);
    assert forall|j: int| i + 1 <= j < e implies in_class(CharClass::Keyword, #[trigger] t[j]) by {
        assert(t[j] == p[j - i]);
        assert(p[j - i] == k[j - i - 1]);
    }
    lemma_token_end(t, e, CharClass::Keyword);
    lemma_scan_run(t, i + 1, e, CharClass::Keyword);
    assert forall|m: int| 0 <= m < k.len() implies t.subrange(i + 1, e)[m] == #[trigger] k[m] by {
        assert(p[m + 1] == t[i + (m + 1)]);
    }
    assert(t.subrange(i + 1, e) =~= k);
}


/// The decimal digits of a number are digits, at least one, and stand for
/// the number.
pub proof fn lemma_decimal_digits(n: nat)
    ensures
        decimal_digits(n).len() >= 1,
        forall|i: int| 0 <= i < decimal_digits(n).len() ==> digit(#[trigger] decimal_digits(n)[i]),
        decimal_value(decimal_digits(n)) == n,
    decreases n,
{
    let d = decimal_digits(n);
    if n < 10 {
        assert(d.drop_last() =~= Seq::<char>::empty());
        assert(decimal_value(d.drop_last()) == 0);
    } else {
        lemma_decimal_digits(n / 10);
        assert(d.drop_last() =~= decimal_digits(n / 10));
        assert(d.last() == digit_char(n % 10));
        assert forall|i: int| 0 <= i < d.len() implies digit(#[trigger] d[i]) by {
            if i < d.len() - 1 {
                assert(d[i] == decimal_digits(n / 10)[i]);
            }
        }
    }
}

/// The decimal text of a 64-bit signed integer is read as one number token.
pub proof fn lemma_lex_number(t: Seq<char>, i: int, n: int)
    requires
        i64::MIN <= n <= i64::MAX,
        occurs(t, i, int_text(n)),
        ends_token(t, i + int_text(n).len()),
    ensures
        lex(t, i) == then_tokens(seq![Tok::Number(n)], lex(t, i + int_text(n).len())),
{
    let p = int_text(n);
    let e = i + p.len();
    if n >= 0 {
        let d = decimal_digits(n as nat);
        lemma_decimal_digits(n as nat);
        assert(p == d);
        assert(t[i] == p[0]);
        assert(digit(t[i]));
        assert forall|j: int| i + 1 <= j < e implies in_class(CharClass::Digit, #[trigger] t[j]) by {
            assert(t[j] == p[j - i]);
        }
        lemma_token_end(t, e, CharClass::Digit);
        lemma_scan_run(t, i + 1, e, CharClass::Digit);
        assert(t.subrange(i, e) =~= d);
    } else {
        let d = decimal_digits((-n) as nat);
        lemma_decimal_digits((-n) as nat);
        assert(p =~= seq!['-'] + d);
        assert(t[i] == p[0]);
        assert(p[1] == t[i + 1]);
        assert(p[1] == d[0]);
        assert(digit(t[i + 1]));
        assert(number_start(t, i));
        assert forall|j: int| i + 2 <= j < e implies in_class(CharClass::Digit, #[trigger] t[j]) by {
            assert(t[j] == p[j - i]);
            assert(p[j - i] == d[j - i - 1]);
        }
        lemma_token_end(t, e, CharClass::Digit);
        lemma_scan_run(t, i + 2, e, CharClass::Digit);
        assert forall|m: int| 0 <= m < d.len() implies t.subrange(i + 1, e)[m] == #[trigger] d[m] by {
            assert(p[m + 1] == t[i + (m + 1)]);
        }
        assert(t.subrange(i + 1, e) =~= d);
    }
}

/// The escaped form of a string, from its first character on.
pub proof fn lemma_escaped_front(s: Seq<char>)
    requires
        s.len() > 0,
    ensures
        escaped(s) == escape_char(s[0]) + escaped(s.drop_first()),
    decreases s.len(),
{
    if s.len() == 1 {
        assert(s.drop_last() =~= Seq::<char>::empty());
        assert(s.drop_first() =~= Seq::<char>::empty());
        assert(escaped(s) =~= escape_char(s[0]) + escaped(s.drop_first()));
    } else {
        lemma_escaped_front(s.drop_last());
        assert(s.drop_last().drop_first() =~= s.drop_first().drop_last());
        assert(s.drop_last()[0] == s[0]);
        assert(s.drop_first().last() == s.last());
        assert(escaped(s) =~= escape_char(s[0]) + escaped(s.drop_first()));
    }
}

/// The escaped form of a string and a closing quote are read back as the
/// string.
pub proof fn lemma_string_body(t: Seq<char>, j: int, s: Seq<char>)
    requires
        occurs(t, j, escaped(s) + seq!['"']),
    ensures
        string_body(t, j) == Ok::<Literal, ParseError>(
            Literal { text: s, next: j + escaped(s).len() + 1 },
        ),
    decreases s.len(),
{
    let p = escaped(s) + seq!['"'];
    if s.len() == 0 {
        assert(p[0] == t[j + 0]);
        assert(string_body(t, j) == Ok::<Literal, ParseError>(
            Literal { text: Seq::empty(), next: j + 1 },
        ));
        assert(s =~= Seq::<char>::empty());
    } else {
        let c = s[0];
        let rest = s.drop_first();
        lemma_escaped_front(s);
        let q = escaped(rest) + seq!['"'];
        let w = escape_char(c).len() as int;
        assert(p =~= escape_char(c) + q);
        assert forall|k: int| 0 <= k < q.len() implies #[trigger] q[k] == t[j + w + k] by {
            assert(p[w + k] == t[j + (w + k)]);
            assert(p[w + k] == q[k]);
        }
        assert(occurs(t, j + w, q));
        lemma_string_body(t, j + w, rest);
        assert(p[0] == t[j + 0]);
        assert(p[0] == escape_char(c)[0]);
        if w == 2 {
            assert(p[1] == t[j + 1]);
            assert(p[1] == escape_char(c)[1]);
        }
        assert(seq![c] + rest =~= s);
    }
}

/// The readable text of a string is read as one string token.
pub proof fn lemma_lex_string(t: Seq<char>, i: int, s: Seq<char>)
    requires
        occurs(t, i, seq!['"'] + escaped(s) + seq!['"']),
    ensures
        lex(t, i) == then_tokens(
            seq![Tok::Str(s)],
            lex(t, i + (seq!['"'] + escaped(s) + seq!['"']).len()),
        ),
{
    let p = seq!['"'] + escaped(s) + seq!['"'];
    let q = escaped(s) + seq!['"'];
    assert(p[0] == t[i + 0]);
    assert(p =~= seq!['"'] + q);
    assert forall|k: int| 0 <= k < q.len() implies #[trigger] q[k] == t[i + 1 + k] by {
        assert(p[k + 1] == t[i + (k + 1)]);
        assert(p[k + 1] == q[k]);
    }
    lemma_string_body(t, i + 1, s);
}


/// Where a text made of two parts stands, both parts stand.
pub proof fn lemma_occurs_split(t: Seq<char>, i: int, a: Seq<char>, b: Seq<char>)
    requires
        occurs(t, i, a + b),
    ensures
        occurs(t, i, a),
        occurs(t, i + a.len(), b),
{
    let p = a + b;
    assert forall|k: int| 0 <= k < a.len() implies #[trigger] a[k] == t[i + k] by {
        assert(p[k] == t[i + k]);
    }
    assert forall|k: int| 0 <= k < b.len() implies #[trigger] b[k] == t[i + a.len() + k] by {
        assert(p[a.len() + k] == t[i + (a.len() + k)]);
    }
}

/// Tokens in front of tokens in front of the rest.
pub proof fn lemma_then_then(a: Seq<Tok>, b: Seq<Tok>, x: Result<Seq<Tok>, ParseError>)
    ensures
        then_tokens(a, then_tokens(b, x)) == then_tokens(a + b, x),
{
    if let Ok(r) = x {
        assert(a + (b + r) =~= (a + b) + r);
    }
}

/// The readable text of a readable value is read as the tokens of the
/// value, whatever stands before it, where a blank, a closing bracket or the
/// end of the text follows.
pub proof fn lemma_lex_value(t: Seq<char>, i: int, v: Value)
    requires
        readable(v),
        occurs(t, i, print_spec(v, true)),
        ends_token(t, i + print_spec(v, true).len()),
    ensures
        lex(t, i) == then_tokens(tokens_of(v), lex(t, i + print_spec(v, true).len())),
    decreases v, 1nat,
{
    let p = print_spec(v, true);
    let e = i + p.len();
    match v {
        Value::Nil => {
            reveal_strlit("nil");
            assert(symbol_run("nil"@));
            lemma_lex_symbol(t, i, "nil"@);
        },
        Value::Bool(b) => {
            if b {
                reveal_strlit("true");
                assert(symbol_run("true"@));
                lemma_lex_symbol(t, i, "true"@);
            } else {
                reveal_strlit("false");
                assert(symbol_run("false"@));
                lemma_lex_symbol(t, i, "false"@);
            }
        },
        Value::Number(n) => lemma_lex_number(t, i, n),
        Value::Symbol(s) => lemma_lex_symbol(t, i, s),
        Value::Str(s) => lemma_lex_string(t, i, s),
        Value::Keyword(k) => lemma_lex_keyword(t, i, k),
        Value::List(items) => {
            let body = joined(items, true);
            lemma_occurs_split(t, i, seq!['('] + body, seq![')']);
            lemma_occurs_split(t, i, seq!['('], body);
            assert(seq!['('][0] == t[i + 0]);
            assert(seq![')'][0] == t[i + 1 + body.len() + 0]);
            lemma_lex_items(t, i + 1, items);
            lemma_then_then(flat(items), seq![Tok::RightParen], lex(t, e));
            lemma_then_then(seq![Tok::LeftParen], flat(items) + seq![Tok::RightParen], lex(t, e));
            assert(seq![Tok::LeftParen] + (flat(items) + seq![Tok::RightParen]) =~= tokens_of(v));
        },
        Value::Vector(items) => {
            let body = joined(items, true);
            lemma_occurs_split(t, i, seq!['['] + body, seq![']']);
            lemma_occurs_split(t, i, seq!['['], body);
            assert(seq!['['][0] == t[i + 0]);
            assert(seq![']'][0] == t[i + 1 + body.len() + 0]);
            lemma_lex_items(t, i + 1, items);
            lemma_then_then(flat(items), seq![Tok::RightBracket], lex(t, e));
            lemma_then_then(
                seq![Tok::LeftBracket],
                flat(items) + seq![Tok::RightBracket],
                lex(t, e),
            );
            assert(seq![Tok::LeftBracket] + (flat(items) + seq![Tok::RightBracket]) =~= tokens_of(
                v,
            ));
        },
        Value::Dict(pairs) => {
            let body = joined_pairs(pairs, true);
            lemma_occurs_split(t, i, seq!['{'] + body, seq!['}']);
            lemma_occurs_split(t, i, seq!['{'], body);
            assert(seq!['{'][0] == t[i + 0]);
            assert(seq!['}'][0] == t[i + 1 + body.len() + 0]);
            lemma_lex_pairs(t, i + 1, pairs);
            lemma_then_then(flat_pairs(pairs), seq![Tok::RightBrace], lex(t, e));
            lemma_then_then(
                seq![Tok::LeftBrace],
                flat_pairs(pairs) + seq![Tok::RightBrace],
                lex(t, e),
            );
            assert(seq![Tok::LeftBrace] + (flat_pairs(pairs) + seq![Tok::RightBrace])
                =~= tokens_of(v));
        },
        Value::Function { .. } => {},
    }
}

/// The readable texts of readable items, with blanks between them, are read
/// as the tokens of the items.
pub proof fn lemma_lex_items(t: Seq<char>, i: int, items: Seq<Value>)
    requires
        forall|k: int| 0 <= k < items.len() ==> readable(#[trigger] items[k]),
        occurs(t, i, joined(items, true)),
        ends_token(t, i + joined(items, true).len()),
    ensures
        lex(t, i) == then_tokens(flat(items), lex(t, i + joined(items, true).len())),
    decreases items, 0nat,
{
    if items.len() == 0 {
        if let Ok(r) = lex(t, i) {
            assert(Seq::<Tok>::empty() + r =~= r);
        }
    } else if items.len() == 1 {
        assert(items.last() == items[0]);
        assert(items.drop_last() =~= Seq::<Value>::empty());
        assert(flat(items.drop_last()) =~= Seq::<Tok>::empty());
        assert(flat(items) =~= tokens_of(items[0]));
        lemma_lex_value(t, i, items[0]);
    } else {
        let front = items.drop_last();
        let last = items.last();
        let a = joined(front, true);
        let b = print_spec(last, true);
        assert(joined(items, true) == a + seq![' '] + b);
        lemma_occurs_split(t, i, a + seq![' '], b);
        lemma_occurs_split(t, i, a, seq![' ']);
        assert(seq![' '][0] == t[i + a.len() + 0]);
        assert forall|k: int| 0 <= k < front.len() implies readable(#[trigger] front[k]) by {
            assert(front[k] == items[k]);
        }
        lemma_lex_items(t, i, front);
        assert(lex(t, i + a.len()) == lex(t, i + a.len() + 1));
        assert(readable(last)) by {
            assert(last == items[items.len() - 1]);
        }
        lemma_lex_value(t, i + a.len() + 1, last);
        lemma_then_then(flat(front), tokens_of(last), lex(t, i + joined(items, true).len()));
    }
}

/// The readable texts of readable keys and values, with blanks between
/// them, are read as their tokens.
pub proof fn lemma_lex_pairs(t: Seq<char>, i: int, pairs: Seq<(Value, Value)>)
    requires
        forall|k: int|
            0 <= k < pairs.len() ==> readable((#[trigger] pairs[k]).0) && readable(pairs[k].1),
        occurs(t, i, joined_pairs(pairs, true)),
        ends_token(t, i + joined_pairs(pairs, true).len()),
    ensures
        lex(t, i) == then_tokens(flat_pairs(pairs), lex(t, i + joined_pairs(pairs, true).len())),
    decreases pairs, 0nat,
{
    if pairs.len() == 0 {
        if let Ok(r) = lex(t, i) {
            assert(Seq::<Tok>::empty() + r =~= r);
        }
    } else {
        let front = pairs.drop_last();
        let last = pairs.last();
        let a = joined_pairs(front, true);
        let ka = print_spec(last.0, true);
        let va = print_spec(last.1, true);
        let b = pair_text(last, true);
        assert(b == ka + seq![' '] + va);
        assert(readable(last.0) && readable(last.1)) by {
            assert(last == pairs[pairs.len() - 1]);
        }
        let start = if pairs.len() == 1 {
            i
        } else {
            i + a.len() + 1
        };
        if pairs.len() == 1 {
            assert(last == pairs[0]);
            assert(front =~= Seq::<(Value, Value)>::empty());
            assert(flat_pairs(front) =~= Seq::<Tok>::empty());
            assert(flat_pairs(pairs) =~= pair_tokens(last));
            assert(lex(t, i) == then_tokens(flat_pairs(front), lex(t, start))) by {
                if let Ok(r) = lex(t, i) {
                    assert(Seq::<Tok>::empty() + r =~= r);
                }
            }
        } else {
            assert(joined_pairs(pairs, true) == a + seq![' '] + b);
            lemma_occurs_split(t, i, a + seq![' '], b);
            lemma_occurs_split(t, i, a, seq![' ']);
            assert(seq![' '][0] == t[i + a.len() + 0]);
            assert forall|k: int| 0 <= k < front.len() implies readable((#[trigger] front[k]).0)
                && readable(front[k].1) by {
                assert(front[k] == pairs[k]);
            }
            lemma_lex_pairs(t, i, front);
            assert(lex(t, i + a.len()) == lex(t, i + a.len() + 1));
        }
        assert(occurs(t, start, b));
        lemma_occurs_split(t, start, ka + seq![' '], va);
        lemma_occurs_split(t, start, ka, seq![' ']);
        assert(seq![' '][0] == t[start + ka.len() + 0]);
        lemma_lex_value(t, start, last.0);
        assert(lex(t, start + ka.len()) == lex(t, start + ka.len() + 1));
        lemma_lex_value(t, start + ka.len() + 1, last.1);
        let end = lex(t, i + joined_pairs(pairs, true).len());
        lemma_then_then(tokens_of(last.0), tokens_of(last.1), end);
        lemma_then_then(flat_pairs(front), pair_tokens(last), end);
    }
}


/// The tokens `ts` stand in `toks` at position `p`.
pub open spec fn toks_occur(toks: Seq<Tok>, p: int, ts: Seq<Tok>) -> bool {
    &&& 0 <= p
    &&& p + ts.len() <= toks.len()
    &&& forall|k: int| 0 <= k < ts.len() ==> #[trigger] ts[k] == toks[p + k]
}

/// Where tokens made of two parts stand, both parts stand.
pub proof fn lemma_toks_split(toks: Seq<Tok>, p: int, a: Seq<Tok>, b: Seq<Tok>)
    requires
        toks_occur(toks, p, a + b),
    ensures
        toks_occur(toks, p, a),
        toks_occur(toks, p + a.len(), b),
{
    let ts = a + b;
    assert forall|k: int| 0 <= k < a.len() implies #[trigger] a[k] == toks[p + k] by {
        assert(ts[k] == toks[p + k]);
    }
    assert forall|k: int| 0 <= k < b.len() implies #[trigger] b[k] == toks[p + a.len() + k] by {
        assert(ts[a.len() + k] == toks[p + (a.len() + k)]);
    }
}

/// A closing bracket.
pub open spec fn is_closer(t: Tok) -> bool {
    t is RightParen || t is RightBracket || t is RightBrace
}

/// A readable value has at least one token, and its first token is no
/// closing bracket.
pub proof fn lemma_first_token(v: Value)
    requires
        readable(v),
    ensures
        tokens_of(v).len() >= 1,
        !is_closer(tokens_of(v)[0]),
{
}

/// The tokens of a sequence of items, from its first item on.
pub proof fn lemma_flat_front(items: Seq<Value>)
    requires
        items.len() > 0,
    ensures
        flat(items) == tokens_of(items[0]) + flat(items.drop_first()),
    decreases items.len(),
{
    let front = items.drop_last();
    let tail = items.drop_first();
    if items.len() == 1 {
        assert(front =~= Seq::<Value>::empty());
        assert(tail =~= Seq::<Value>::empty());
        assert(flat(front) =~= Seq::<Tok>::empty());
        assert(flat(tail) =~= Seq::<Tok>::empty());
        assert(flat(items) =~= tokens_of(items[0]) + flat(tail));
    } else {
        lemma_flat_front(front);
        assert(tail.drop_last() =~= front.drop_first());
        assert(front[0] == items[0]);
        assert(tail.last() == items.last());
        assert(flat(items) =~= tokens_of(items[0]) + flat(tail));
    }
}

/// The tokens of a sequence of pairs, from its first pair on.
pub proof fn lemma_flat_pairs_front(pairs: Seq<(Value, Value)>)
    requires
        pairs.len() > 0,
    ensures
        flat_pairs(pairs) == pair_tokens(pairs[0]) + flat_pairs(pairs.drop_first()),
    decreases pairs.len(),
{
    let front = pairs.drop_last();
    let tail = pairs.drop_first();
    if pairs.len() == 1 {
        assert(front =~= Seq::<(Value, Value)>::empty());
        assert(tail =~= Seq::<(Value, Value)>::empty());
        assert(flat_pairs(front) =~= Seq::<Tok>::empty());
        assert(flat_pairs(tail) =~= Seq::<Tok>::empty());
        assert(flat_pairs(pairs) =~= pair_tokens(pairs[0]) + flat_pairs(tail));
    } else {
        lemma_flat_pairs_front(front);
        assert(tail.drop_last() =~= front.drop_first());
        assert(front[0] == pairs[0]);
        assert(tail.last() == pairs.last());
        assert(flat_pairs(pairs) =~= pair_tokens(pairs[0]) + flat_pairs(tail));
    }
}

/// The tokens of a readable value are parsed as the value.
pub proof fn lemma_parse_value(toks: Seq<Tok>, p: int, v: Value)
    requires
        readable(v),
        toks_occur(toks, p, tokens_of(v)),
    ensures
        parse_form(toks, p) == (Parsed { result: Ok(v), next: p + tokens_of(v).len() }),
    decreases v, 1nat,
{
    let ts = tokens_of(v);
    lemma_first_token(v);
    assert(ts[0] == toks[p + 0]);
    match v {
        Value::Nil => {
            assert(toks[p] == Tok::Symbol("nil"@));
            assert(atom_of(toks[p]) == Ok::<Value, ParseError>(Value::Nil));
        },
        Value::Bool(b) => {
            reveal_strlit("nil");
            reveal_strlit("true");
            reveal_strlit("false");
            assert("nil"@.len() == 3 && "true"@.len() == 4 && "false"@.len() == 5);
        },
        Value::Number(n) => {},
        Value::Symbol(s) => {
            reveal_strlit("nil");
            reveal_strlit("true");
            reveal_strlit("false");
            assert("nil"@.len() == 3 && "true"@.len() == 4 && "false"@.len() == 5);
        },
        Value::Str(s) => {},
        Value::Keyword(k) => {},
        Value::List(items) => {
            let inner = flat(items);
            lemma_toks_split(toks, p, seq![Tok::LeftParen] + inner, seq![Tok::RightParen]);
            lemma_toks_split(toks, p, seq![Tok::LeftParen], inner);
            assert(seq![Tok::RightParen][0] == toks[p + 1 + inner.len() + 0]);
            lemma_parse_items(toks, p + 1, items, Tok::RightParen);
        },
        Value::Vector(items) => {
            let inner = flat(items);
            lemma_toks_split(toks, p, seq![Tok::LeftBracket] + inner, seq![Tok::RightBracket]);
            lemma_toks_split(toks, p, seq![Tok::LeftBracket], inner);
            assert(seq![Tok::RightBracket][0] == toks[p + 1 + inner.len() + 0]);
            lemma_parse_items(toks, p + 1, items, Tok::RightBracket);
        },
        Value::Dict(pairs) => {
            let inner = flat_pairs(pairs);
            lemma_toks_split(toks, p, seq![Tok::LeftBrace] + inner, seq![Tok::RightBrace]);
            lemma_toks_split(toks, p, seq![Tok::LeftBrace], inner);
            assert(seq![Tok::RightBrace][0] == toks[p + 1 + inner.len() + 0]);
            lemma_parse_pairs(toks, p + 1, pairs);
        },
        Value::Function { .. } => {},
    }
}

/// The tokens of readable items and a closing bracket are parsed as the
/// items.
pub proof fn lemma_parse_items(toks: Seq<Tok>, q: int, items: Seq<Value>, close: Tok)
    requires
        forall|k: int| 0 <= k < items.len() ==> readable(#[trigger] items[k]),
        toks_occur(toks, q, flat(items)),
        q + flat(items).len() < toks.len(),
        toks[q + flat(items).len()] == close,
        is_closer(close),
    ensures
        parse_items(toks, q, close) == (ParsedItems {
            result: Ok(items),
            next: q + flat(items).len() + 1,
        }),
    decreases items, 0nat,
{
    if items.len() == 0 {
        assert(items =~= Seq::<Value>::empty());
    } else {
        let first = items[0];
        let tail = items.drop_first();
        lemma_flat_front(items);
        lemma_first_token(first);
        lemma_toks_split(toks, q, tokens_of(first), flat(tail));
        assert(tokens_of(first)[0] == toks[q + 0]);
        lemma_parse_value(toks, q, first);
        assert forall|k: int| 0 <= k < tail.len() implies readable(#[trigger] tail[k]) by {
            assert(tail[k] == items[k + 1]);
        }
        lemma_parse_items(toks, q + tokens_of(first).len(), tail, close);
        assert(seq![first] + tail =~= items);
    }
}

/// The tokens of readable keys and values and a closing brace are parsed as
/// the pairs.
pub proof fn lemma_parse_pairs(toks: Seq<Tok>, q: int, pairs: Seq<(Value, Value)>)
    requires
        forall|k: int|
            0 <= k < pairs.len() ==> readable((#[trigger] pairs[k]).0) && readable(pairs[k].1),
        toks_occur(toks, q, flat_pairs(pairs)),
        q + flat_pairs(pairs).len() < toks.len(),
        toks[q + flat_pairs(pairs).len()] == Tok::RightBrace,
    ensures
        parse_pairs(toks, q) == (ParsedPairs {
            result: Ok(pairs),
            next: q + flat_pairs(pairs).len() + 1,
        }),
    decreases pairs, 0nat,
{
    if pairs.len() == 0 {
        assert(pairs =~= Seq::<(Value, Value)>::empty());
    } else {
        let first = pairs[0];
        let tail = pairs.drop_first();
        lemma_flat_pairs_front(pairs);
        lemma_first_token(first.0);
        lemma_first_token(first.1);
        lemma_toks_split(toks, q, pair_tokens(first), flat_pairs(tail));
        lemma_toks_split(toks, q, tokens_of(first.0), tokens_of(first.1));
        assert(tokens_of(first.0)[0] == toks[q + 0]);
        lemma_parse_value(toks, q, first.0);
        let mid = q + tokens_of(first.0).len();
        assert(tokens_of(first.1)[0] == toks[mid + 0]);
        lemma_parse_value(toks, mid, first.1);
        assert forall|k: int| 0 <= k < tail.len() implies readable((#[trigger] tail[k]).0)
            && readable(tail[k].1) by {
            assert(tail[k] == pairs[k + 1]);
        }
        lemma_parse_pairs(toks, q + pair_tokens(first).len(), tail);
        assert(seq![first] + tail =~= pairs);
    }
}

/// Printing a readable value and reading the text again gives the value.
pub proof fn law_read_print(v: Value)
    requires
        readable(v),
    ensures
        read_spec(print_spec(v, true)) == Ok::<Value, ParseError>(v),
{
    let t = print_spec(v, true);
    let ts = tokens_of(v);
    lemma_lex_value(t, 0, v);
    lemma_first_token(v);
    assert(ts + Seq::<Tok>::empty() =~= ts);
    assert(lex(t, 0) == Ok::<Seq<Tok>, ParseError>(ts));
    lemma_parse_value(ts, 0, v);
}


/// A token as the tokenizer makes it: a number of 64 bits, a symbol or a
/// keyword with a name that is read as one token.
pub open spec fn valid_tok(t: Tok) -> bool {
    match t {
        Tok::Number(n) => i64::MIN <= n <= i64::MAX,
        Tok::Symbol(s) => symbol_run(s) || s == seq!['&'],
        Tok::Keyword(k) => valid_keyword(k),
        _ => true,
    }
}

/// Every token of a sequence is as the tokenizer makes it.
pub open spec fn valid_toks(toks: Seq<Tok>) -> bool {
    forall|k: int| 0 <= k < toks.len() ==> valid_tok(#[trigger] toks[k])
}

/// What was scanned is of the class that was scanned for.
pub proof fn lemma_scan_all(t: Seq<char>, a: int, k: CharClass)
    requires
        0 <= a,
    ensures
        forall|j: int| a <= j < scan(t, a, k) ==> in_class(k, #[trigger] t[j]),
    decreases t.len() - a,
{
    if a < t.len() && in_class(k, t[a]) {
        lemma_scan_all(t, a + 1, k);
    }
}

/// A valid token in front of valid tokens.
pub proof fn lemma_valid_then(first: Tok, rest: Result<Seq<Tok>, ParseError>)
    requires
        valid_tok(first),
        rest matches Ok(r) ==> valid_toks(r),
    ensures
        then_tokens(seq![first], rest) matches Ok(r) ==> valid_toks(r),
{
    if let Ok(r) = rest {
        let all = seq![first] + r;
        assert forall|k: int| 0 <= k < all.len() implies valid_tok(#[trigger] all[k]) by {
            if k > 0 {
                assert(all[k] == r[k - 1]);
            }
        }
    }
}

/// The tokenizer makes valid tokens only.
pub proof fn lemma_lex_valid(s: Seq<char>, i: int)
    requires
        0 <= i,
    ensures
        lex(s, i) matches Ok(toks) ==> valid_toks(toks),
    decreases s.len() - i,
{
    if i < s.len() {
        let c = s[i];
        if whitespace(c) || c == ',' {
            lemma_lex_valid(s, i + 1);
        } else if c == ';' {
            lemma_scan_bounds(s, i + 1, CharClass::Comment);
            lemma_lex_valid(s, scan(s, i + 1, CharClass::Comment));
        } else if c == '"' {
            lemma_string_bounds(s, i + 1);
            if let Ok(l) = string_body(s, i + 1) {
                lemma_lex_valid(s, l.next);
                lemma_valid_then(Tok::Str(l.text), lex(s, l.next));
            }
        } else if c == '~' {
            if i + 1 < s.len() && s[i + 1] == '@' {
                lemma_lex_valid(s, i + 2);
                lemma_valid_then(Tok::SpliceUnquote, lex(s, i + 2));
            } else {
                lemma_lex_valid(s, i + 1);
                lemma_valid_then(Tok::Unquote, lex(s, i + 1));
            }
        } else if special(c) {
            lemma_lex_valid(s, i + 1);
            lemma_valid_then(special_tok(c), lex(s, i + 1));
        } else if c == ':' {
            lemma_scan_bounds(s, i + 1, CharClass::Keyword);
            lemma_scan_all(s, i + 1, CharClass::Keyword);
            let e = scan(s, i + 1, CharClass::Keyword);
            lemma_lex_valid(s, e);
            lemma_valid_then(Tok::Keyword(s.subrange(i + 1, e)), lex(s, e));
        } else if number_start(s, i) {
            let negative = c == '-';
            let start = if negative {
                i + 1
            } else {
                i
            };
            lemma_scan_bounds(s, start + 1, CharClass::Digit);
            let e = scan(s, start + 1, CharClass::Digit);
            if let Some(n) = number_value(s.subrange(start, e), negative) {
                lemma_lex_valid(s, e);
                lemma_valid_then(Tok::Number(n), lex(s, e));
            }
        } else {
            lemma_scan_bounds(s, i + 1, CharClass::Symbol);
            lemma_scan_all(s, i + 1, CharClass::Symbol);
            let e = scan(s, i + 1, CharClass::Symbol);
            let name = s.subrange(i, e);
            assert forall|k: int| 0 <= k < name.len() implies !delimiter(#[trigger] name[k]) by {
                if k > 0 {
                    assert(in_class(CharClass::Symbol, s[i + k]));
                }
            }
            assert(symbol_run(name));
            lemma_lex_valid(s, e);
            lemma_valid_then(Tok::Symbol(name), lex(s, e));
        }
    }
}

/// A name of small letters and hyphens that begins with a letter is read as
/// one symbol.
pub proof fn lemma_plain_name(s: Seq<char>)
    requires
        s.len() > 0,
        'a' <= s[0] <= 'z',
        forall|i: int| 0 <= i < s.len() ==> 'a' <= #[trigger] s[i] <= 'z' || s[i] == '-',
    ensures
        symbol_run(s),
{
}

/// The names that the reader puts in front of a quoted form are symbols
/// that can be read.
pub proof fn lemma_quote_names()
    ensures
        valid_symbol("quote"@),
        valid_symbol("quasiquote"@),
        valid_symbol("unquote"@),
        valid_symbol("splice-unquote"@),
        valid_symbol("deref"@),
        valid_symbol("with-meta"@),
{
    reveal_strlit("nil");
    reveal_strlit("true");
    reveal_strlit("false");
    reveal_strlit("quote");
    reveal_strlit("quasiquote");
    reveal_strlit("unquote");
    reveal_strlit("splice-unquote");
    reveal_strlit("deref");
    reveal_strlit("with-meta");
    assert("nil"@.len() == 3 && "true"@.len() == 4 && "false"@.len() == 5);
    assert("nil"@[0] == 'n' && "true"@[0] == 't' && "false"@[0] == 'f');
    lemma_plain_name("quote"@);
    lemma_plain_name("quasiquote"@);
    lemma_plain_name("unquote"@);
    lemma_plain_name("splice-unquote"@);
    lemma_plain_name("deref"@);
    lemma_plain_name("with-meta"@);
}

/// A form wrapped in a list behind a readable symbol is readable.
pub proof fn lemma_wrapped_readable(name: Seq<char>, p: Parsed)
    requires
        valid_symbol(name),
        p.result matches Ok(v) ==> readable(v),
    ensures
        wrapped(name, p).result matches Ok(v) ==> readable(v),
{
    if let Ok(v) = p.result {
        let items = seq![Value::Symbol(name), v];
        assert forall|i: int| 0 <= i < items.len() implies readable(#[trigger] items[i]) by {}
    }
}

/// What is parsed from valid tokens is readable.
pub proof fn lemma_parse_readable(toks: Seq<Tok>, pos: int)
    requires
        0 <= pos,
        valid_toks(toks),
    ensures
        parse_form(toks, pos).result matches Ok(v) ==> readable(v),
    decreases toks.len() - pos, 0nat,
{
    lemma_quote_names();
    if pos < toks.len() {
        assert(valid_tok(toks[pos]));
        match toks[pos] {
            Tok::Quote => {
                lemma_parse_readable(toks, pos + 1);
                lemma_wrapped_readable("quote"@, parse_form(toks, pos + 1));
            },
            Tok::Quasiquote => {
                lemma_parse_readable(toks, pos + 1);
                lemma_wrapped_readable("quasiquote"@, parse_form(toks, pos + 1));
            },
            Tok::Unquote => {
                lemma_parse_readable(toks, pos + 1);
                lemma_wrapped_readable("unquote"@, parse_form(toks, pos + 1));
            },
            Tok::SpliceUnquote => {
                lemma_parse_readable(toks, pos + 1);
                lemma_wrapped_readable("splice-unquote"@, parse_form(toks, pos + 1));
            },
            Tok::Deref => {
                lemma_parse_readable(toks, pos + 1);
                lemma_wrapped_readable("deref"@, parse_form(toks, pos + 1));
            },
            Tok::Meta => {
                lemma_parse_readable(toks, pos + 1);
                let m = parse_form(toks, pos + 1);
                if let Ok(meta) = m.result {
                    if pos < m.next <= toks.len() {
                        lemma_parse_readable(toks, m.next);
                        let f = parse_form(toks, m.next);
                        if let Ok(form) = f.result {
                            let items = seq![Value::Symbol("with-meta"@), form, meta];
                            assert forall|i: int| 0 <= i < items.len() implies readable(
                                #[trigger] items[i],
                            ) by {}
                        }
                    }
                }
            },
            Tok::LeftParen => lemma_items_readable(toks, pos + 1, Tok::RightParen),
            Tok::LeftBracket => lemma_items_readable(toks, pos + 1, Tok::RightBracket),
            Tok::LeftBrace => lemma_pairs_readable(toks, pos + 1),
            _ => {},
        }
    }
}

/// The items that are parsed from valid tokens are readable.
pub proof fn lemma_items_readable(toks: Seq<Tok>, pos: int, close: Tok)
    requires
        0 <= pos,
        valid_toks(toks),
    ensures
        parse_items(toks, pos, close).result matches Ok(vs) ==> forall|i: int|
            0 <= i < vs.len() ==> readable(#[trigger] vs[i]),
    decreases toks.len() - pos, 1nat,
{
    if pos < toks.len() && toks[pos] != close {
        lemma_parse_readable(toks, pos);
        let f = parse_form(toks, pos);
        if let Ok(v) = f.result {
            if pos < f.next <= toks.len() {
                lemma_items_readable(toks, f.next, close);
                let rest = parse_items(toks, f.next, close);
                if let Ok(vs) = rest.result {
                    let all = seq![v] + vs;
                    assert forall|i: int| 0 <= i < all.len() implies readable(#[trigger] all[i]) by {
                        if i > 0 {
                            assert(all[i] == vs[i - 1]);
                        }
                    }
                }
            }
        }
    }
}

/// The keys and values that are parsed from valid tokens are readable.
pub proof fn lemma_pairs_readable(toks: Seq<Tok>, pos: int)
    requires
        0 <= pos,
        valid_toks(toks),
    ensures
        parse_pairs(toks, pos).result matches Ok(ps) ==> forall|i: int|
            0 <= i < ps.len() ==> readable((#[trigger] ps[i]).0) && readable(ps[i].1),
    decreases toks.len() - pos, 1nat,
{
    if pos < toks.len() && toks[pos] != Tok::RightBrace {
        lemma_parse_readable(toks, pos);
        let k = parse_form(toks, pos);
        if let Ok(key) = k.result {
            if pos < k.next < toks.len() {
                lemma_parse_readable(toks, k.next);
                let v = parse_form(toks, k.next);
                if let Ok(val) = v.result {
                    if k.next < v.next <= toks.len() {
                        lemma_pairs_readable(toks, v.next);
                        let rest = parse_pairs(toks, v.next);
                        if let Ok(ps) = rest.result {
                            let all = seq![(key, val)] + ps;
                            assert forall|i: int| 0 <= i < all.len() implies readable(
                                (#[trigger] all[i]).0,
                            ) && readable(all[i].1) by {
                                if i > 0 {
                                    assert(all[i] == ps[i - 1]);
                                }
                            }
                        }
                    }
                }
            }
        }
    }
}

/// Whatever is read from a text is a readable value.
pub proof fn law_read_gives_readable(s: Seq<char>)
    ensures
        read_spec(s) matches Ok(v) ==> readable(v),
{
    lemma_lex_valid(s, 0);
    if let Ok(toks) = lex(s, 0) {
        lemma_parse_readable(toks, 0);
    }
}

/// Round trip: where a text is read as a value, the readable text of that
/// value is read as the same value again, and therefore printed as the same
/// text again.
pub proof fn law_round_trip(s: Seq<char>)
    ensures
        read_spec(s) matches Ok(v) ==> read_spec(print_spec(v, true)) == Ok::<Value, ParseError>(v),
{
    law_read_gives_readable(s);
    if let Ok(v) = read_spec(s) {
        law_read_print(v);
    }
}

} // verus!
