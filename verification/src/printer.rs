use crate::text::{int_text, push_char, push_int};
use crate::types::{group_value_views, pairs_of, values_of, MalType, Value};
use vstd::prelude::*;
use vstd::string::StringExecFns;

verus! {

/// How one character of a string is written in readable form.
pub open spec fn escape_char(c: char) -> Seq<char> {
    if c == '\\' {
        seq!['\\', '\\']
    } else if c == '\n' {
        seq!['\\', 'n']
    } else if c == '"' {
        seq!['\\', '"']
    } else {
        seq![c]
    }
}

/// The characters of a string with backslash, newline and double quote escaped.
pub open spec fn escaped(s: Seq<char>) -> Seq<char>
    decreases s.len(),
{
    if s.len() == 0 {
        Seq::empty()
    } else {
        escaped(s.drop_last()) + escape_char(s.last())
    }
}

/// The text of a value. In readable form a string is quoted and escaped; in
/// display form it is given as it is.
pub open spec fn print_spec(v: Value, readable: bool) -> Seq<char>
    decreases v,
{
    match v {
        Value::Nil => "nil"@,
        Value::Bool(b) => if b {
            "true"@
        } else {
            "false"@
        },
        Value::Number(n) => int_text(n),
        Value::Symbol(s) => s,
        Value::Str(s) => if readable {
            seq!['"'] + escaped(s) + seq!['"']
        } else {
            s
        },
        Value::Keyword(k) => seq![':'] + k,
        Value::List(items) => seq!['('] + joined(items, readable) + seq![')'],
        Value::Vector(items) => seq!['['] + joined(items, readable) + seq![']'],
        Value::Dict(pairs) => seq!['{'] + joined_pairs(pairs, readable) + seq!['}'],
        Value::Function { .. } => "#<function>"@,
    }
}

/// The texts of the items, with one space between neighbours.
pub open spec fn joined(items: Seq<Value>, readable: bool) -> Seq<char>
    decreases items,
{
    if items.len() == 0 {
        Seq::empty()
    } else if items.len() == 1 {
        print_spec(items[0], readable)
    } else {
        joined(items.drop_last(), readable) + seq![' '] + print_spec(items.last(), readable)
    }
}

/// The text of a key and its value, with one space between them.
pub open spec fn pair_text(p: (Value, Value), readable: bool) -> Seq<char>
    decreases p,
{
    print_spec(p.0, readable) + seq![' '] + print_spec(p.1, readable)
}

/// The texts of the pairs, with one space between neighbours.
pub open spec fn joined_pairs(pairs: Seq<(Value, Value)>, readable: bool) -> Seq<char>
    decreases pairs,
{
    if pairs.len() == 0 {
        Seq::empty()
    } else if pairs.len() == 1 {
        pair_text(pairs[0], readable)
    } else {
        joined_pairs(pairs.drop_last(), readable) + seq![' '] + pair_text(pairs.last(), readable)
    }
}

/// Appends the escaped form of `s` to `out`.
fn push_escaped(out: &mut String, s: &str)
    ensures
        final(out)@ == old(out)@ + escaped(s@),
{
    let ghost start = out@;
    for c in it: s.chars()
        invariant
            out@ == start + escaped(s@.take(it.index() as int)),
            it.seq() == s@,
    {
        let ghost before = s@.take(it.index() as int);
        let ghost after = s@.take(it.index() + 1);
        assert(after.drop_last() =~= before);
        assert(after.last() == c);
        if c == '\\' {
            push_char(out, '\\');
            push_char(out, '\\');
        } else if c == '\n' {
            push_char(out, '\\');
            push_char(out, 'n');
        } else if c == '"' {
            push_char(out, '\\');
            push_char(out, '"');
        } else {
            push_char(out, c);
        }
        assert(out@ =~= start + escaped(after));
    }
    assert(s@.take(s@.len() as int) =~= s@);
}

/// Appends the texts of the items to `out`, with one space between neighbours.
fn push_items(out: &mut String, items: &Vec<MalType>, print_readably: bool)
    ensures
        final(out)@ == old(out)@ + joined(values_of(items@), print_readably),
    decreases items, 0nat,
{
    let ghost start = out@;
    let ghost vs = values_of(items@);
    let mut i: usize = 0;
    assert(vs.take(0) =~= Seq::<Value>::empty());
    while i < items.len()
        invariant
            i <= items.len(),
            vs == values_of(items@),
            out@ == start + joined(vs.take(i as int), print_readably),
        decreases items.len() - i,
    {
        let ghost before = out@;
        if i > 0 {
            push_char(out, ' ');
        }
        push_value(out, &items[i], print_readably);
        proof {
            let next = vs.take(i + 1);
            assert(next.drop_last() =~= vs.take(i as int));
            assert(next.last() == items[i as int]@);
            assert(out@ =~= start + joined(next, print_readably));
        }
        i += 1;
    }
    assert(vs.take(items.len() as int) =~= vs);
}

/// Appends the texts of the pairs to `out`, with one space between neighbours.
fn push_pairs(out: &mut String, pairs: &Vec<(MalType, MalType)>, print_readably: bool)
    ensures
        final(out)@ == old(out)@ + joined_pairs(pairs_of(pairs@), print_readably),
    decreases pairs, 0nat,
{
    let ghost start = out@;
    let ghost ps = pairs_of(pairs@);
    let mut i: usize = 0;
    assert(ps.take(0) =~= Seq::<(Value, Value)>::empty());
    while i < pairs.len()
        invariant
            i <= pairs.len(),
            ps == pairs_of(pairs@),
            out@ == start + joined_pairs(ps.take(i as int), print_readably),
        decreases pairs.len() - i,
    {
        if i > 0 {
            push_char(out, ' ');
        }
        push_value(out, &pairs[i].0, print_readably);
        push_char(out, ' ');
        push_value(out, &pairs[i].1, print_readably);
        proof {
            let next = ps.take(i + 1);
            assert(next.drop_last() =~= ps.take(i as int));
            assert(next.last() == (pairs[i as int].0@, pairs[i as int].1@));
            assert(pair_text(next.last(), print_readably) == print_spec(
                pairs[i as int].0@,
                print_readably,
            ) + seq![' '] + print_spec(pairs[i as int].1@, print_readably));
            assert(out@ =~= start + joined_pairs(next, print_readably));
        }
        i += 1;
    }
    assert(ps.take(pairs.len() as int) =~= ps);
}

/// Appends the text of `exp` to `out`.
pub fn push_value(out: &mut String, exp: &MalType, print_readably: bool)
    ensures
        final(out)@ == old(out)@ + print_spec(exp@, print_readably),
    decreases exp, 1nat,
{
    broadcast use group_value_views;

    match exp {
        MalType::Nil => out.append("nil"),
        MalType::Bool(b) => {
            if *b {
                out.append("true")
            } else {
                out.append("false")
            }
        },
        MalType::Number(n) => push_int(out, *n),
        MalType::Symbol(s) => out.append(s.as_str()),
        MalType::String(s) => {
            if print_readably {
                push_char(out, '"');
                push_escaped(out, s.as_str());
                push_char(out, '"');
                assert(out@ =~= old(out)@ + print_spec(exp@, print_readably));
            } else {
                out.append(s.as_str());
            }
        },
        MalType::Keyword(k) => {
            push_char(out, ':');
            out.append(k.as_str());
            assert(out@ =~= old(out)@ + print_spec(exp@, print_readably));
        },
        MalType::List(items) => {
            push_char(out, '(');
            push_items(out, items, print_readably);
            push_char(out, ')');
            assert(out@ =~= old(out)@ + print_spec(exp@, print_readably));
        },
        MalType::Vector(items) => {
            push_char(out, '[');
            push_items(out, items, print_readably);
            push_char(out, ']');
            assert(out@ =~= old(out)@ + print_spec(exp@, print_readably));
        },
        MalType::Dict(pairs) => {
            push_char(out, '{');
            push_pairs(out, pairs, print_readably);
            push_char(out, '}');
            assert(out@ =~= old(out)@ + print_spec(exp@, print_readably));
        },
        MalType::Function { .. } => out.append("#<function>"),
    }
}

/// The text of an expression: readable, with strings quoted and escaped, or
/// for display, with strings as they are.
pub fn pr_str(exp: &MalType, print_readably: bool) -> (r: String)
    ensures
        r@ == print_spec(exp@, print_readably),
{
    let mut out = String::new();
    push_value(&mut out, exp, print_readably);
    assert(out@ =~= print_spec(exp@, print_readably));
    out
}

impl MalType {
    /// The readable text of this expression.
    pub fn print(&self) -> (r: String)
        ensures
            r@ == print_spec(self@, true),
    {
        pr_str(self, true)
    }
}

} // verus!
