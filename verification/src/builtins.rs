use crate::env::{emitted, Runtime, World};
use crate::printer::{joined, print_spec, push_value};
use crate::text::{push_char, same_text};
use crate::types::{equal_values, group_value_views, values_equal, values_of, MalType, Value};
use vstd::prelude::*;
use vstd::string::StringExecFns;

verus! {

/// Why an evaluation failed, as a mathematical value.
pub enum Failure {
    SymbolNotFound(Seq<char>),
    NotAFunction,
    WrongArity,
    WrongType,
    DivisionByZero,
    Overflow,
    BadSyntax,
    DepthExceeded,
    DanglingScope,
}

/// Why an evaluation failed.
#[derive(Debug, PartialEq, Eq)]
pub enum EvalError {
    /// A symbol that no scope on the chain binds.
    SymbolNotFound(String),
    /// The head of a list evaluated to neither a function nor the name of a
    /// built-in operation.
    NotAFunction,
    /// An operation or a special form got the wrong number of operands.
    WrongArity,
    /// An operand of the wrong kind, such as a string where a number is due.
    WrongType,
    /// A division whose divisor is zero.
    DivisionByZero,
    /// An arithmetic result that is no 64-bit signed integer.
    Overflow,
    /// A special form that is not built as it should be.
    BadSyntax,
    /// The evaluation nests deeper than the given limit.
    DepthExceeded,
    /// A function whose scope is none of the runtime.
    DanglingScope,
}

impl View for EvalError {
    type V = Failure;

    open spec fn view(&self) -> Failure {
        match self {
            EvalError::SymbolNotFound(s) => Failure::SymbolNotFound(s@),
            EvalError::NotAFunction => Failure::NotAFunction,
            EvalError::WrongArity => Failure::WrongArity,
            EvalError::WrongType => Failure::WrongType,
            EvalError::DivisionByZero => Failure::DivisionByZero,
            EvalError::Overflow => Failure::Overflow,
            EvalError::BadSyntax => Failure::BadSyntax,
            EvalError::DepthExceeded => Failure::DepthExceeded,
            EvalError::DanglingScope => Failure::DanglingScope,
        }
    }
}

impl Clone for EvalError {
    fn clone(&self) -> (r: Self)
        ensures
            r@ == self@,
    {
        match self {
            EvalError::SymbolNotFound(s) => EvalError::SymbolNotFound(s.clone()),
            EvalError::NotAFunction => EvalError::NotAFunction,
            EvalError::WrongArity => EvalError::WrongArity,
            EvalError::WrongType => EvalError::WrongType,
            EvalError::DivisionByZero => EvalError::DivisionByZero,
            EvalError::Overflow => EvalError::Overflow,
            EvalError::BadSyntax => EvalError::BadSyntax,
            EvalError::DepthExceeded => EvalError::DepthExceeded,
            EvalError::DanglingScope => EvalError::DanglingScope,
        }
    }
}

/// The text of a failure, for a reader.
pub open spec fn message_of(f: Failure) -> Seq<char> {
    match f {
        Failure::SymbolNotFound(s) => "symbol not found: "@ + s,
        Failure::NotAFunction => "not a function"@,
        Failure::WrongArity => "wrong number of arguments"@,
        Failure::WrongType => "wrong kind of argument"@,
        Failure::DivisionByZero => "division by zero"@,
        Failure::Overflow => "integer overflow"@,
        Failure::BadSyntax => "malformed special form"@,
        Failure::DepthExceeded => "evaluation nests too deep"@,
        Failure::DanglingScope => "function without a scope"@,
    }
}

impl EvalError {
    /// The text of this error, for a reader.
    pub fn message(&self) -> (r: String)
        ensures
            r@ == message_of(self@),
    {
        match self {
            EvalError::SymbolNotFound(s) => String::from_str("symbol not found: ").concat(
                s.as_str(),
            ),
            EvalError::NotAFunction => String::from_str("not a function"),
            EvalError::WrongArity => String::from_str("wrong number of arguments"),
            EvalError::WrongType => String::from_str("wrong kind of argument"),
            EvalError::DivisionByZero => String::from_str("division by zero"),
            EvalError::Overflow => String::from_str("integer overflow"),
            EvalError::BadSyntax => String::from_str("malformed special form"),
            EvalError::DepthExceeded => String::from_str("evaluation nests too deep"),
            EvalError::DanglingScope => String::from_str("function without a scope"),
        }
    }
}

/// What one evaluation gave, and the world after it.
pub struct Step {
    pub result: Result<Value, Failure>,
    pub world: World,
}

/// What evaluating a sequence of forms gave, and the world after it.
pub struct StepSeq {
    pub result: Result<Seq<Value>, Failure>,
    pub world: World,
}

/// The value or failure that an evaluating function returned.
pub open spec fn outcome(r: Result<MalType, EvalError>) -> Result<Value, Failure> {
    match r {
        Ok(m) => Ok(m@),
        Err(e) => Err(e@),
    }
}

/// A failure that leaves the world as it is.
pub open spec fn fail(f: Failure, w: World) -> Step {
    Step { result: Err(f), world: w }
}

/// A value that leaves the world as it is.
pub open spec fn done(v: Value, w: World) -> Step {
    Step { result: Ok(v), world: w }
}

/// Every value counts as true but `nil` and `false`.
pub open spec fn truthy(v: Value) -> bool {
    !(v is Nil) && v != Value::Bool(false)
}

/// The quotient of `a` by `b`, rounded towards zero, for `b` other than zero.
pub open spec fn trunc_div(a: int, b: int) -> int {
    if a >= 0 {
        if b > 0 {
            a / b
        } else {
            -(a / (-b))
        }
    } else {
        if b > 0 {
            -((-a) / b)
        } else {
            (-a) / (-b)
        }
    }
}

/// The number `n` as a value, if it is a 64-bit signed integer.
pub open spec fn in_range(n: int) -> Result<Value, Failure> {
    if i64::MIN <= n <= i64::MAX {
        Ok(Value::Number(n))
    } else {
        Err(Failure::Overflow)
    }
}

/// The two numbers that a numeric operation is applied to.
pub open spec fn two_numbers(args: Seq<Value>) -> Result<(int, int), Failure> {
    if args.len() != 2 {
        Err(Failure::WrongArity)
    } else {
        match (args[0], args[1]) {
            (Value::Number(a), Value::Number(b)) => Ok((a, b)),
            _ => Err(Failure::WrongType),
        }
    }
}

/// The texts of the items for display, one after the other with nothing
/// between them.
pub open spec fn concatenated(items: Seq<Value>) -> Seq<char>
    decreases items.len(),
{
    if items.len() == 0 {
        Seq::empty()
    } else {
        concatenated(items.drop_last()) + print_spec(items.last(), false)
    }
}

/// The names of the built-in operations.
pub open spec fn is_builtin(name: Seq<char>) -> bool {
    ||| name == "+"@
    ||| name == "-"@
    ||| name == "*"@
    ||| name == "/"@
    ||| name == "="@
    ||| name == ">"@
    ||| name == ">="@
    ||| name == "<"@
    ||| name == "<="@
    ||| name == "list"@
    ||| name == "list?"@
    ||| name == "empty?"@
    ||| name == "count"@
    ||| name == "pr-str"@
    ||| name == "str"@
    ||| name == "prn"@
    ||| name == "println"@
    ||| name == "not"@
}

/// What an arithmetic operation gives for two numbers.
pub open spec fn arithmetic(name: Seq<char>, a: int, b: int) -> Result<Value, Failure> {
    if name == "+"@ {
        in_range(a + b)
    } else if name == "-"@ {
        in_range(a - b)
    } else if name == "*"@ {
        in_range(a * b)
    } else if b == 0 {
        Err(Failure::DivisionByZero)
    } else {
        in_range(trunc_div(a, b))
    }
}

/// What a comparison gives for two numbers.
pub open spec fn comparison(name: Seq<char>, a: int, b: int) -> bool {
    if name == ">"@ {
        a > b
    } else if name == ">="@ {
        a >= b
    } else if name == "<"@ {
        a < b
    } else {
        a <= b
    }
}

/// What a built-in operation other than `prn` and `println` gives for the
/// arguments `args`.
pub open spec fn builtin_value(name: Seq<char>, args: Seq<Value>) -> Result<Value, Failure> {
    if name == "+"@ || name == "-"@ || name == "*"@ || name == "/"@ {
        match two_numbers(args) {
            Ok((a, b)) => arithmetic(name, a, b),
            Err(e) => Err(e),
        }
    } else if name == "="@ {
        if args.len() != 2 {
            Err(Failure::WrongArity)
        } else {
            Ok(Value::Bool(values_equal(args[0], args[1])))
        }
    } else if name == ">"@ || name == ">="@ || name == "<"@ || name == "<="@ {
        match two_numbers(args) {
            Ok((a, b)) => Ok(Value::Bool(comparison(name, a, b))),
            Err(e) => Err(e),
        }
    } else if name == "list"@ {
        Ok(Value::List(args))
    } else if name == "list?"@ {
        if args.len() != 1 {
            Err(Failure::WrongArity)
        } else {
            Ok(Value::Bool(args[0] is List))
        }
    } else if name == "empty?"@ {
        if args.len() != 1 {
            Err(Failure::WrongArity)
        } else {
            match args[0] {
                Value::List(items) => Ok(Value::Bool(items.len() == 0)),
                Value::Vector(items) => Ok(Value::Bool(items.len() == 0)),
                _ => Err(Failure::WrongType),
            }
        }
    } else if name == "count"@ {
        if args.len() != 1 {
            Err(Failure::WrongArity)
        } else {
            match args[0] {
                Value::List(items) => in_range(items.len() as int),
                Value::Vector(items) => in_range(items.len() as int),
                Value::Nil => Ok(Value::Number(0)),
                _ => Err(Failure::WrongType),
            }
        }
    } else if name == "pr-str"@ {
        Ok(Value::Str(joined(args, true)))
    } else if name == "str"@ {
        Ok(Value::Str(concatenated(args)))
    } else if name == "not"@ {
        if args.len() != 1 {
            Err(Failure::WrongArity)
        } else {
            Ok(Value::Bool(!truthy(args[0])))
        }
    } else {
        Err(Failure::NotAFunction)
    }
}

/// What applying the built-in operation `name` to `args` gives, and the
/// world after it: `prn` prints the readable texts of its arguments on one
/// line, `println` their texts for display.
pub open spec fn builtin_spec(name: Seq<char>, args: Seq<Value>, w: World) -> Step {
    if name == "prn"@ {
        Step { result: Ok(Value::Nil), world: emitted(w, joined(args, true)) }
    } else if name == "println"@ {
        Step { result: Ok(Value::Nil), world: emitted(w, joined(args, false)) }
    } else {
        Step { result: builtin_value(name, args), world: w }
    }
}

/// Whether an expression counts as true.
pub fn is_truthy(v: &MalType) -> (r: bool)
    ensures
        r == truthy(v@),
{
    match v {
        MalType::Nil => false,
        MalType::Bool(b) => *b,
        _ => true,
    }
}

/// The two numbers that a numeric operation is applied to.
fn numbers(args: &Vec<MalType>) -> (r: Result<(i64, i64), EvalError>)
    ensures
        match r {
            Ok((a, b)) => two_numbers(values_of(args@)) == Ok::<(int, int), Failure>(
                (a as int, b as int),
            ),
            Err(e) => two_numbers(values_of(args@)) == Err::<(int, int), Failure>(e@),
        },
{
    if args.len() != 2 {
        return Err(EvalError::WrongArity);
    }
    match (&args[0], &args[1]) {
        (MalType::Number(a), MalType::Number(b)) => Ok((*a, *b)),
        _ => Err(EvalError::WrongType),
    }
}

/// The quotient of `a` by `b`, rounded towards zero.
fn divide(a: i64, b: i64) -> (r: Result<MalType, EvalError>)
    requires
        b != 0,
    ensures
        outcome(r) == in_range(trunc_div(a as int, b as int)),
{
    let ma: u64 = if a < 0 {
        (-(a as i128)) as u64
    } else {
        a as u64
    };
    let mb: u64 = if b < 0 {
        (-(b as i128)) as u64
    } else {
        b as u64
    };
    let q: u64 = ma / mb;
    let signed: i128 = if (a < 0) != (b < 0) {
        -(q as i128)
    } else {
        q as i128
    };
    if signed < -0x8000_0000_0000_0000 || signed > 0x7fff_ffff_ffff_ffff {
        Err(EvalError::Overflow)
    } else {
        Ok(MalType::Number(signed as i64))
    }
}

/// The texts of the arguments on one line: readable or for display, with
/// one space between neighbours.
fn line_of(args: &Vec<MalType>, print_readably: bool) -> (r: String)
    ensures
        r@ == joined(values_of(args@), print_readably),
{
    let ghost vs = values_of(args@);
    let mut out = String::new();
    let mut i: usize = 0;
    assert(vs.take(0) =~= Seq::<Value>::empty());
    while i < args.len()
        invariant
            i <= args.len(),
            vs == values_of(args@),
            out@ == joined(vs.take(i as int), print_readably),
        decreases args.len() - i,
    {
        if i > 0 {
            push_char(&mut out, ' ');
        }
        push_value(&mut out, &args[i], print_readably);
        proof {
            let next = vs.take(i + 1);
            assert(next.drop_last() =~= vs.take(i as int));
            assert(next.last() == args[i as int]@);
            assert(out@ =~= joined(next, print_readably));
        }
        i += 1;
    }
    assert(vs.take(args.len() as int) =~= vs);
    out
}

/// The texts of the arguments for display, with nothing between them.
fn concat_of(args: &Vec<MalType>) -> (r: String)
    ensures
        r@ == concatenated(values_of(args@)),
{
    let ghost vs = values_of(args@);
    let mut out = String::new();
    let mut i: usize = 0;
    assert(vs.take(0) =~= Seq::<Value>::empty());
    while i < args.len()
        invariant
            i <= args.len(),
            vs == values_of(args@),
            out@ == concatenated(vs.take(i as int)),
        decreases args.len() - i,
    {
        push_value(&mut out, &args[i], false);
        proof {
            let next = vs.take(i + 1);
            assert(next.drop_last() =~= vs.take(i as int));
            assert(next.last() == args[i as int]@);
        }
        i += 1;
    }
    assert(vs.take(args.len() as int) =~= vs);
    out
}


/// An arithmetic operation on two numbers.
fn arithmetic_of(name: &str, a: i64, b: i64) -> (r: Result<MalType, EvalError>)
    ensures
        outcome(r) == arithmetic(name@, a as int, b as int),
{
    if same_text(name, "+") {
        match a.checked_add(b) {
            Some(n) => Ok(MalType::Number(n)),
            None => Err(EvalError::Overflow),
        }
    } else if same_text(name, "-") {
        match a.checked_sub(b) {
            Some(n) => Ok(MalType::Number(n)),
            None => Err(EvalError::Overflow),
        }
    } else if same_text(name, "*") {
        match a.checked_mul(b) {
            Some(n) => Ok(MalType::Number(n)),
            None => Err(EvalError::Overflow),
        }
    } else if b == 0 {
        Err(EvalError::DivisionByZero)
    } else {
        divide(a, b)
    }
}

/// A comparison of two numbers.
fn comparison_of(name: &str, a: i64, b: i64) -> (r: bool)
    ensures
        r == comparison(name@, a as int, b as int),
{
    if same_text(name, ">") {
        a > b
    } else if same_text(name, ">=") {
        a >= b
    } else if same_text(name, "<") {
        a < b
    } else {
        a <= b
    }
}

/// The length of a sequence as a number of the language.
fn count_of(n: usize) -> (r: Result<MalType, EvalError>)
    ensures
        outcome(r) == in_range(n as int),
{
    let wide: u128 = n as u128;
    if wide > 0x7fff_ffff_ffff_ffff {
        Err(EvalError::Overflow)
    } else {
        Ok(MalType::Number(wide as i64))
    }
}

/// Applies the built-in operation `name` to `args`.
///
/// `prn` and `println` add one line to the printed lines of `rt`; nothing
/// else of `rt` changes.
pub fn apply_builtin(name: &str, args: Vec<MalType>, rt: &mut Runtime) -> (r: Result<
    MalType,
    EvalError,
>)
    ensures
        outcome(r) == builtin_spec(name@, values_of(args@), old(rt)@).result,
        final(rt)@ == builtin_spec(name@, values_of(args@), old(rt)@).world,
{
    broadcast use group_value_views;

    if same_text(name, "prn") {
        rt.emit(line_of(&args, true));
        Ok(MalType::Nil)
    } else if same_text(name, "println") {
        rt.emit(line_of(&args, false));
        Ok(MalType::Nil)
    } else if same_text(name, "+") || same_text(name, "-") || same_text(name, "*") || same_text(
        name,
        "/",
    ) {
        match numbers(&args) {
            Ok((a, b)) => arithmetic_of(name, a, b),
            Err(e) => Err(e),
        }
    } else if same_text(name, "=") {
        if args.len() != 2 {
            Err(EvalError::WrongArity)
        } else {
            Ok(MalType::Bool(equal_values(&args[0], &args[1])))
        }
    } else if same_text(name, ">") || same_text(name, ">=") || same_text(name, "<") || same_text(
        name,
        "<=",
    ) {
        match numbers(&args) {
            Ok((a, b)) => Ok(MalType::Bool(comparison_of(name, a, b))),
            Err(e) => Err(e),
        }
    } else if same_text(name, "list") {
        Ok(MalType::List(args))
    } else if same_text(name, "list?") {
        if args.len() != 1 {
            Err(EvalError::WrongArity)
        } else {
            match &args[0] {
                MalType::List(_) => Ok(MalType::Bool(true)),
                _ => Ok(MalType::Bool(false)),
            }
        }
    } else if same_text(name, "empty?") {
        if args.len() != 1 {
            Err(EvalError::WrongArity)
        } else {
            match &args[0] {
                MalType::List(items) => Ok(MalType::Bool(items.len() == 0)),
                MalType::Vector(items) => Ok(MalType::Bool(items.len() == 0)),
                _ => Err(EvalError::WrongType),
            }
        }
    } else if same_text(name, "count") {
        if args.len() != 1 {
            Err(EvalError::WrongArity)
        } else {
            match &args[0] {
                MalType::List(items) => count_of(items.len()),
                MalType::Vector(items) => count_of(items.len()),
                MalType::Nil => Ok(MalType::Number(0)),
                _ => Err(EvalError::WrongType),
            }
        }
    } else if same_text(name, "pr-str") {
        Ok(MalType::String(line_of(&args, true)))
    } else if same_text(name, "str") {
        Ok(MalType::String(concat_of(&args)))
    } else if same_text(name, "not") {
        if args.len() != 1 {
            Err(EvalError::WrongArity)
        } else {
            Ok(MalType::Bool(!is_truthy(&args[0])))
        }
    } else {
        Err(EvalError::NotAFunction)
    }
}

} // verus!
