use crate::builtins::{
    apply_builtin, builtin_spec, done, fail, is_truthy, outcome, truthy, EvalError, Failure, Step,
    StepSeq,
};
use crate::env::{defined, logged, lookup, pushed, Env, Runtime, Scope, World};
use crate::printer::{pr_str, print_spec};
use crate::text::same_text;
use crate::types::{group_value_views, names_of, pairs_of, values_of, MalType, Value};
use vstd::prelude::*;
use vstd::string::StringExecFns;

verus! {

/// Whether the diagnostic trace is on in scope `env`: the name `DEBUG-EVAL`
/// resolves there to a value that counts as true.
pub open spec fn debug_on(scopes: Seq<Scope>, env: nat) -> bool {
    match lookup(scopes, env, "DEBUG-EVAL"@) {
        Some(v) => truthy(v),
        None => false,
    }
}

/// The names of the special forms.
pub open spec fn is_special_form(name: Seq<char>) -> bool {
    ||| name == "def!"@
    ||| name == "let*"@
    ||| name == "do"@
    ||| name == "if"@
    ||| name == "fn*"@
}

/// Whether a parameter list is well formed from position `i` on: every
/// entry is a symbol, and `&` stands only before the last entry.
pub open spec fn check_params(params: Seq<Value>, i: int) -> Result<(), Failure>
    decreases params.len() - i,
{
    if i < 0 || i >= params.len() {
        Ok(())
    } else {
        match params[i] {
            Value::Symbol(s) => if s == "&"@ {
                if i + 2 == params.len() && params[i + 1] is Symbol {
                    Ok(())
                } else {
                    Err(Failure::BadSyntax)
                }
            } else {
                check_params(params, i + 1)
            },
            _ => Err(Failure::WrongType),
        }
    }
}

/// The name of a symbol; the empty name for any other value.
pub open spec fn symbol_name(v: Value) -> Seq<char> {
    match v {
        Value::Symbol(s) => s,
        _ => Seq::empty(),
    }
}

/// The names of a list of symbols.
pub open spec fn symbol_names(params: Seq<Value>) -> Seq<Seq<char>> {
    Seq::new(params.len(), |i: int| symbol_name(params[i]))
}

/// Whether a parameter list ends in `&` and the name for the rest.
pub open spec fn has_rest(params: Seq<Value>) -> bool {
    params.len() >= 2 && params[params.len() - 2] == Value::Symbol("&"@)
}

/// The number of parameters that are bound one by one.
pub open spec fn fixed_count(params: Seq<Seq<char>>, variadic: bool) -> nat {
    if variadic && params.len() >= 2 {
        (params.len() - 2) as nat
    } else {
        params.len()
    }
}

/// The argument at position `i`, or `nil` where the arguments have ended.
pub open spec fn arg_or_nil(args: Seq<Value>, i: int) -> Value {
    if 0 <= i < args.len() {
        args[i]
    } else {
        Value::Nil
    }
}

/// The first `n` parameters bound to the arguments at their positions.
pub open spec fn fixed_vars(params: Seq<Seq<char>>, args: Seq<Value>, n: nat) -> Map<
    Seq<char>,
    Value,
>
    decreases n,
{
    if n == 0 {
        Map::empty()
    } else {
        fixed_vars(params, args, (n - 1) as nat).insert(params[n - 1], arg_or_nil(args, n - 1))
    }
}

/// The arguments that no fixed parameter takes.
pub open spec fn rest_args(args: Seq<Value>, n: nat) -> Seq<Value> {
    if n <= args.len() {
        args.skip(n as int)
    } else {
        Seq::empty()
    }
}

/// The scope in which the body of a function runs: its fixed parameters
/// bound to the arguments at their positions, `nil` where there is none; for
/// a variadic function the last parameter bound to the list of the arguments
/// that are left; enclosed by the scope that the function captured.
pub open spec fn call_scope(
    params: Seq<Seq<char>>,
    variadic: bool,
    args: Seq<Value>,
    captured: nat,
) -> Scope {
    let n = fixed_count(params, variadic);
    let fixed = fixed_vars(params, args, n);
    Scope {
        vars: if variadic && params.len() >= 2 {
            fixed.insert(params.last(), Value::List(rest_args(args, n)))
        } else {
            fixed
        },
        outer: Some(captured),
    }
}

/// The world in which the evaluation of `ast` in scope `env` begins: with
/// the trace on, the form is logged first.
pub open spec fn entered(ast: Value, env: nat, w: World) -> World {
    if debug_on(w.scopes, env) {
        logged(w, "EVAL: "@ + print_spec(ast, true))
    } else {
        w
    }
}

/// The value of `ast` in scope `env` and the world after its evaluation,
/// with `depth` levels of nesting allowed.
///
/// With the trace on, the form is logged before its evaluation and the
/// value after it.
pub open spec fn eval_spec(ast: Value, env: nat, w: World, depth: nat) -> Step
    decreases depth, 0nat, 0nat,
{
    if depth == 0 {
        fail(Failure::DepthExceeded, w)
    } else {
        let debug = debug_on(w.scopes, env);
        let w1 = entered(ast, env, w);
        let s = form_spec(ast, env, w1, (depth - 1) as nat);
        match s.result {
            Ok(v) => if debug {
                Step { result: s.result, world: logged(s.world, print_spec(v, true)) }
            } else {
                s
            },
            Err(e) => s,
        }
    }
}

/// Evaluates one form: a special form by its own rule, another list that is
/// not empty as an application, anything else by its structure.
pub open spec fn form_spec(ast: Value, env: nat, w: World, fuel: nat) -> Step
    decreases fuel, 4nat, 0nat,
{
    match ast {
        Value::List(items) => if items.len() == 0 {
            eval_ast_spec(ast, env, w, fuel)
        } else {
            match special_form(items, env, w, fuel) {
                Some(s) => s,
                None => {
                    let r = eval_seq(items, env, w, fuel);
                    match r.result {
                        Ok(vs) => apply_spec(vs[0], vs.skip(1), r.world, fuel),
                        Err(e) => fail(e, r.world),
                    }
                },
            }
        },
        _ => eval_ast_spec(ast, env, w, fuel),
    }
}

/// Evaluates a form by its structure: a symbol is looked up, the items of a
/// list or vector and the values of a map are evaluated in order, and any
/// other value is its own result.
pub open spec fn eval_ast_spec(ast: Value, env: nat, w: World, fuel: nat) -> Step
    decreases fuel, 2nat, 0nat,
{
    match ast {
        Value::Symbol(s) => match lookup(w.scopes, env, s) {
            Some(v) => done(v, w),
            None => fail(Failure::SymbolNotFound(s), w),
        },
        Value::List(items) => {
            let r = eval_seq(items, env, w, fuel);
            match r.result {
                Ok(vs) => done(Value::List(vs), r.world),
                Err(e) => fail(e, r.world),
            }
        },
        Value::Vector(items) => {
            let r = eval_seq(items, env, w, fuel);
            match r.result {
                Ok(vs) => done(Value::Vector(vs), r.world),
                Err(e) => fail(e, r.world),
            }
        },
        Value::Dict(pairs) => eval_pairs(pairs, env, w, fuel),
        _ => done(ast, w),
    }
}

/// Evaluates the forms from left to right and stops at the first failure.
pub open spec fn eval_seq(items: Seq<Value>, env: nat, w: World, fuel: nat) -> StepSeq
    decreases fuel, 1nat, items.len(),
{
    if items.len() == 0 {
        StepSeq { result: Ok(Seq::empty()), world: w }
    } else {
        let r = eval_seq(items.drop_last(), env, w, fuel);
        match r.result {
            Err(e) => r,
            Ok(vs) => {
                let s = eval_spec(items.last(), env, r.world, fuel);
                match s.result {
                    Ok(v) => StepSeq { result: Ok(vs.push(v)), world: s.world },
                    Err(e) => StepSeq { result: Err(e), world: s.world },
                }
            },
        }
    }
}

/// Evaluates the values of a map from left to right; the keys stay as they
/// are.
pub open spec fn eval_pairs(pairs: Seq<(Value, Value)>, env: nat, w: World, fuel: nat) -> Step
    decreases fuel, 1nat, pairs.len(),
{
    if pairs.len() == 0 {
        done(Value::Dict(Seq::empty()), w)
    } else {
        let r = eval_pairs(pairs.drop_last(), env, w, fuel);
        match r.result {
            Ok(Value::Dict(ps)) => {
                let s = eval_spec(pairs.last().1, env, r.world, fuel);
                match s.result {
                    Ok(v) => done(Value::Dict(ps.push((pairs.last().0, v))), s.world),
                    Err(e) => s,
                }
            },
            _ => r,
        }
    }
}

/// Installs the first `k` bindings of a `let*` in scope `scope`, each
/// initializer evaluated in that scope as the bindings before it left it.
pub open spec fn let_bindings(b: Seq<Value>, k: nat, scope: nat, w: World, fuel: nat) -> Step
    decreases fuel, 1nat, k,
{
    if k == 0 {
        done(Value::Nil, w)
    } else {
        let r = let_bindings(b, (k - 1) as nat, scope, w, fuel);
        match r.result {
            Err(e) => r,
            Ok(_) => match b[2 * k - 2] {
                Value::Symbol(name) => {
                    let s = eval_spec(b[2 * k - 1], scope, r.world, fuel);
                    match s.result {
                        Ok(v) => done(Value::Nil, defined(s.world, scope, name, v)),
                        Err(e) => s,
                    }
                },
                _ => fail(Failure::WrongType, r.world),
            },
        }
    }
}

/// Applies `f` to arguments that are already evaluated.
///
/// A function runs its body in a new scope that its captured scope
/// encloses; a symbol stands for the built-in operation of its name.
pub open spec fn apply_spec(f: Value, args: Seq<Value>, w: World, fuel: nat) -> Step
    decreases fuel, 1nat, 0nat,
{
    match f {
        Value::Function { params, body, env, variadic } => if env >= w.scopes.len() {
            fail(Failure::DanglingScope, w)
        } else {
            eval_spec(
                *body,
                w.scopes.len(),
                pushed(w, call_scope(params, variadic, args, env)),
                fuel,
            )
        },
        Value::Symbol(s) => builtin_spec(s, args, w),
        _ => fail(Failure::NotAFunction, w),
    }
}

/// `(def! name form)`: evaluates the form and binds the name to its value in
/// the current scope.
pub open spec fn def_spec(items: Seq<Value>, env: nat, w: World, fuel: nat) -> Step
    decreases fuel, 2nat, 0nat,
{
    if items.len() != 3 {
        fail(Failure::WrongArity, w)
    } else {
        match items[1] {
            Value::Symbol(key) => {
                let s = eval_spec(items[2], env, w, fuel);
                match s.result {
                    Ok(v) => done(v, defined(s.world, env, key, v)),
                    Err(e) => s,
                }
            },
            _ => fail(Failure::WrongType, w),
        }
    }
}

/// The bindings of a `let*`: the items of a list or of a vector.
pub open spec fn binding_forms(v: Value) -> Option<Seq<Value>> {
    match v {
        Value::List(b) => Some(b),
        Value::Vector(b) => Some(b),
        _ => None,
    }
}

/// `(let* (name form ...) body)`: makes a scope inside the current one,
/// installs the bindings in order and evaluates the body there.
pub open spec fn let_spec(items: Seq<Value>, env: nat, w: World, fuel: nat) -> Step
    decreases fuel, 2nat, 0nat,
{
    if items.len() != 3 {
        fail(Failure::WrongArity, w)
    } else {
        match binding_forms(items[1]) {
            None => fail(Failure::WrongType, w),
            Some(b) => if b.len() % 2 != 0 {
                fail(Failure::BadSyntax, w)
            } else {
                let scope = w.scopes.len();
                let w1 = pushed(w, Scope { vars: Map::empty(), outer: Some(env) });
                let r = let_bindings(b, b.len() / 2, scope, w1, fuel);
                match r.result {
                    Ok(_) => eval_spec(items[2], scope, r.world, fuel),
                    Err(e) => r,
                }
            },
        }
    }
}

/// `(do form ...)`: evaluates the forms in order and gives the value of the
/// last.
pub open spec fn do_spec(items: Seq<Value>, env: nat, w: World, fuel: nat) -> Step
    decreases fuel, 2nat, 0nat,
{
    if items.len() < 2 {
        fail(Failure::WrongArity, w)
    } else {
        let r = eval_seq(items.skip(1), env, w, fuel);
        match r.result {
            Ok(vs) => done(vs.last(), r.world),
            Err(e) => fail(e, r.world),
        }
    }
}

/// `(if cond yes no)`: evaluates the condition and after it one of the two
/// branches; without the second branch a false condition gives `nil`.
pub open spec fn if_spec(items: Seq<Value>, env: nat, w: World, fuel: nat) -> Step
    decreases fuel, 2nat, 0nat,
{
    if items.len() != 3 && items.len() != 4 {
        fail(Failure::WrongArity, w)
    } else {
        let c = eval_spec(items[1], env, w, fuel);
        match c.result {
            Err(e) => c,
            Ok(v) => if truthy(v) {
                eval_spec(items[2], env, c.world, fuel)
            } else if items.len() == 4 {
                eval_spec(items[3], env, c.world, fuel)
            } else {
                done(Value::Nil, c.world)
            },
        }
    }
}

/// `(fn* (name ...) body)`: a function that holds the parameter names, the
/// body as it stands and the current scope.
pub open spec fn fn_spec(items: Seq<Value>, env: nat, w: World) -> Step {
    if items.len() != 3 {
        fail(Failure::WrongArity, w)
    } else {
        match binding_forms(items[1]) {
            None => fail(Failure::WrongType, w),
            Some(ps) => match check_params(ps, 0) {
                Err(e) => fail(e, w),
                Ok(_) => done(
                    Value::Function {
                        params: symbol_names(ps),
                        body: Box::new(items[2]),
                        env,
                        variadic: has_rest(ps),
                    },
                    w,
                ),
            },
        }
    }
}

/// What a list gives as a special form; `None` if its head names none.
pub open spec fn special_form(items: Seq<Value>, env: nat, w: World, fuel: nat) -> Option<Step>
    decreases fuel, 3nat, 0nat,
{
    if items.len() == 0 {
        None
    } else {
        match items[0] {
            Value::Symbol(s) => if s == "def!"@ {
                Some(def_spec(items, env, w, fuel))
            } else if s == "let*"@ {
                Some(let_spec(items, env, w, fuel))
            } else if s == "do"@ {
                Some(do_spec(items, env, w, fuel))
            } else if s == "if"@ {
                Some(if_spec(items, env, w, fuel))
            } else if s == "fn*"@ {
                Some(fn_spec(items, env, w))
            } else {
                None
            },
            _ => None,
        }
    }
}


/// What an evaluating function returned, with the world that it left.
pub open spec fn step_of(r: Result<MalType, EvalError>, w: World) -> Step {
    Step { result: outcome(r), world: w }
}

/// What a function that evaluates a sequence returned, with the world that
/// it left.
pub open spec fn step_seq_of(r: Result<Vec<MalType>, EvalError>, w: World) -> StepSeq {
    StepSeq {
        result: match r {
            Ok(items) => Ok(values_of(items@)),
            Err(e) => Err(e@),
        },
        world: w,
    }
}

/// Once a form of a sequence has failed, the forms after it change nothing.
pub proof fn lemma_seq_failure(items: Seq<Value>, k: int, env: nat, w: World, fuel: nat)
    requires
        0 <= k <= items.len(),
        eval_seq(items.take(k), env, w, fuel).result is Err,
    ensures
        eval_seq(items, env, w, fuel) == eval_seq(items.take(k), env, w, fuel),
    decreases items.len() - k,
{
    if k == items.len() {
        assert(items.take(k) =~= items);
    } else {
        assert(items.take(k + 1).drop_last() =~= items.take(k));
        lemma_seq_failure(items, k + 1, env, w, fuel);
    }
}

/// Once a value of a map has failed, the pairs after it change nothing.
pub proof fn lemma_pairs_failure(
    pairs: Seq<(Value, Value)>,
    k: int,
    env: nat,
    w: World,
    fuel: nat,
)
    requires
        0 <= k <= pairs.len(),
        !(eval_pairs(pairs.take(k), env, w, fuel).result matches Ok(Value::Dict(_))),
    ensures
        eval_pairs(pairs, env, w, fuel) == eval_pairs(pairs.take(k), env, w, fuel),
    decreases pairs.len() - k,
{
    if k == pairs.len() {
        assert(pairs.take(k) =~= pairs);
    } else {
        assert(pairs.take(k + 1).drop_last() =~= pairs.take(k));
        lemma_pairs_failure(pairs, k + 1, env, w, fuel);
    }
}

/// Once a binding of a `let*` has failed, the bindings after it change
/// nothing.
pub proof fn lemma_bindings_failure(
    b: Seq<Value>,
    k: nat,
    n: nat,
    scope: nat,
    w: World,
    fuel: nat,
)
    requires
        k <= n,
        let_bindings(b, k, scope, w, fuel).result is Err,
    ensures
        let_bindings(b, n, scope, w, fuel) == let_bindings(b, k, scope, w, fuel),
    decreases n - k,
{
    if k < n {
        lemma_bindings_failure(b, k, (n - 1) as nat, scope, w, fuel);
    }
}

/// Whether the diagnostic trace is on in scope `env`.
fn debug_enabled(rt: &Runtime, env: usize) -> (r: bool)
    requires
        rt.wf(),
    ensures
        r == debug_on(rt@.scopes, env as nat),
{
    match rt.lookup(env, "DEBUG-EVAL") {
        Some(v) => is_truthy(&v),
        None => false,
    }
}

/// Evaluates `ast` in scope `env` of `rt`, with `depth` levels of nesting
/// allowed.
pub fn eval(ast: &MalType, env: usize, rt: &mut Runtime, depth: usize) -> (r: Result<
    MalType,
    EvalError,
>)
    requires
        old(rt).wf(),
        env < old(rt)@.scopes.len(),
    ensures
        final(rt).wf(),
        old(rt)@.scopes.len() <= final(rt)@.scopes.len(),
        step_of(r, final(rt)@) == eval_spec(ast@, env as nat, old(rt)@, depth as nat),
    decreases depth, 0nat, 0nat,
{
    if depth == 0 {
        return Err(EvalError::DepthExceeded);
    }
    let debug = debug_enabled(rt, env);
    if debug {
        let mut line = String::from_str("EVAL: ");
        line.append(pr_str(ast, true).as_str());
        rt.log(line);
    }
    let result = eval_form(ast, env, rt, depth - 1);
    if debug {
        if let Ok(v) = &result {
            rt.log(pr_str(v, true));
        }
    }
    result
}

/// Evaluates one form: a special form by its own rule, another list that is
/// not empty as an application, anything else by its structure.
fn eval_form(ast: &MalType, env: usize, rt: &mut Runtime, fuel: usize) -> (r: Result<
    MalType,
    EvalError,
>)
    requires
        old(rt).wf(),
        env < old(rt)@.scopes.len(),
    ensures
        final(rt).wf(),
        old(rt)@.scopes.len() <= final(rt)@.scopes.len(),
        step_of(r, final(rt)@) == form_spec(ast@, env as nat, old(rt)@, fuel as nat),
    decreases fuel, 4nat, 0nat,
{
    broadcast use group_value_views;

    match ast {
        MalType::List(items) => {
            if items.len() == 0 {
                return eval_ast(ast, env, rt, fuel);
            }
            assert(values_of(items@).skip(0) =~= values_of(items@));
            match handle_special_form(items, env, rt, fuel) {
                Some(r) => r,
                None => {
                    match eval_items(items, 0, env, rt, fuel) {
                        Err(e) => Err(e),
                        Ok(evaluated) => {
                            let mut args = evaluated;
                            let ghost vs = values_of(args@);
                            assert(values_of(items@).skip(0) =~= values_of(items@));
                            proof {
                                lemma_seq_length(
                                    values_of(items@),
                                    env as nat,
                                    old(rt)@,
                                    fuel as nat,
                                );
                            }
                            let f = args.remove(0);
                            assert(values_of(args@) =~= vs.skip(1));
                            apply_function(&f, args, rt, fuel)
                        },
                    }
                },
            }
        },
        _ => eval_ast(ast, env, rt, fuel),
    }
}

/// A sequence of forms evaluates to as many values.
pub proof fn lemma_seq_length(items: Seq<Value>, env: nat, w: World, fuel: nat)
    ensures
        eval_seq(items, env, w, fuel).result matches Ok(vs) ==> vs.len() == items.len(),
    decreases items.len(),
{
    if items.len() > 0 {
        lemma_seq_length(items.drop_last(), env, w, fuel);
    }
}

/// Evaluates the items of `items` from position `from` on, from left to
/// right, and stops at the first failure.
fn eval_items(items: &Vec<MalType>, from: usize, env: usize, rt: &mut Runtime, fuel: usize) -> (r:
    Result<Vec<MalType>, EvalError>)
    requires
        old(rt).wf(),
        env < old(rt)@.scopes.len(),
        from <= items.len(),
    ensures
        final(rt).wf(),
        old(rt)@.scopes.len() <= final(rt)@.scopes.len(),
        step_seq_of(r, final(rt)@) == eval_seq(
            values_of(items@).skip(from as int),
            env as nat,
            old(rt)@,
            fuel as nat,
        ),
    decreases fuel, 1nat, 0nat,
{
    let ghost forms = values_of(items@).skip(from as int);
    let ghost w0 = rt@;
    let mut out: Vec<MalType> = Vec::new();
    let mut i: usize = from;
    proof {
        assert(forms.take(0) =~= Seq::<Value>::empty());
        assert(values_of(out@) =~= Seq::<Value>::empty());
    }
    while i < items.len()
        invariant
            from <= i <= items.len(),
            rt.wf(),
            env < rt@.scopes.len(),
            w0.scopes.len() <= rt@.scopes.len(),
            forms == values_of(items@).skip(from as int),
            w0 == old(rt)@,
            eval_seq(forms.take(i - from), env as nat, w0, fuel as nat) == (StepSeq {
                result: Ok(values_of(out@)),
                world: rt@,
            }),
        decreases items.len() - i,
    {
        let ghost before = values_of(out@);
        proof {
            assert(forms.take(i - from + 1).drop_last() =~= forms.take(i - from));
            assert(forms.take(i - from + 1).last() == items[i as int]@);
        }
        match eval(&items[i], env, rt, fuel) {
            Err(e) => {
                proof {
                    lemma_seq_failure(forms, i - from + 1, env as nat, w0, fuel as nat);
                }
                return Err(e);
            },
            Ok(v) => {
                assert(values_of(out@.push(v)) =~= before.push(v@));
                out.push(v);
            },
        }
        i += 1;
    }
    assert(forms.take(items.len() - from) =~= forms);
    Ok(out)
}

/// Evaluates the values of a map literal from left to right.
fn eval_dict(pairs: &Vec<(MalType, MalType)>, env: usize, rt: &mut Runtime, fuel: usize) -> (r:
    Result<MalType, EvalError>)
    requires
        old(rt).wf(),
        env < old(rt)@.scopes.len(),
    ensures
        final(rt).wf(),
        old(rt)@.scopes.len() <= final(rt)@.scopes.len(),
        step_of(r, final(rt)@) == eval_pairs(pairs_of(pairs@), env as nat, old(rt)@, fuel as nat),
    decreases fuel, 1nat, 0nat,
{
    let ghost forms = pairs_of(pairs@);
    let ghost w0 = rt@;
    let mut out: Vec<(MalType, MalType)> = Vec::new();
    let mut i: usize = 0;
    proof {
        assert(forms.take(0) =~= Seq::<(Value, Value)>::empty());
        assert(pairs_of(out@) =~= Seq::<(Value, Value)>::empty());
    }
    while i < pairs.len()
        invariant
            i <= pairs.len(),
            rt.wf(),
            env < rt@.scopes.len(),
            w0.scopes.len() <= rt@.scopes.len(),
            forms == pairs_of(pairs@),
            w0 == old(rt)@,
            eval_pairs(forms.take(i as int), env as nat, w0, fuel as nat) == done(
                Value::Dict(pairs_of(out@)),
                rt@,
            ),
        decreases pairs.len() - i,
    {
        let ghost before = pairs_of(out@);
        proof {
            assert(forms.take(i + 1).drop_last() =~= forms.take(i as int));
            assert(forms.take(i + 1).last() == (pairs[i as int].0@, pairs[i as int].1@));
        }
        match eval(&pairs[i].1, env, rt, fuel) {
            Err(e) => {
                proof {
                    lemma_pairs_failure(forms, i + 1, env as nat, w0, fuel as nat);
                }
                return Err(e);
            },
            Ok(v) => {
                let key = pairs[i].0.clone();
                assert(pairs_of(out@.push((key, v))) =~= before.push((key@, v@)));
                out.push((key, v));
            },
        }
        i += 1;
    }
    proof {
        assert(forms.take(pairs.len() as int) =~= forms);
        crate::types::lemma_dict_value(out);
    }
    Ok(MalType::Dict(out))
}

/// Evaluates a form by its structure.
pub fn eval_ast(ast: &MalType, env: usize, rt: &mut Runtime, fuel: usize) -> (r: Result<
    MalType,
    EvalError,
>)
    requires
        old(rt).wf(),
        env < old(rt)@.scopes.len(),
    ensures
        final(rt).wf(),
        old(rt)@.scopes.len() <= final(rt)@.scopes.len(),
        step_of(r, final(rt)@) == eval_ast_spec(ast@, env as nat, old(rt)@, fuel as nat),
    decreases fuel, 2nat, 0nat,
{
    broadcast use group_value_views;

    match ast {
        MalType::Symbol(s) => match rt.lookup(env, s.as_str()) {
            Some(v) => Ok(v),
            None => Err(EvalError::SymbolNotFound(s.clone())),
        },
        MalType::List(items) => {
            assert(values_of(items@).skip(0) =~= values_of(items@));
            match eval_items(items, 0, env, rt, fuel) {
                Ok(out) => Ok(MalType::List(out)),
                Err(e) => Err(e),
            }
        },
        MalType::Vector(items) => {
            assert(values_of(items@).skip(0) =~= values_of(items@));
            match eval_items(items, 0, env, rt, fuel) {
                Ok(out) => Ok(MalType::Vector(out)),
                Err(e) => Err(e),
            }
        },
        MalType::Dict(pairs) => eval_dict(pairs, env, rt, fuel),
        _ => Ok(ast.clone()),
    }
}

/// The scope in which the body of a function runs.
fn bind_params(params: &Vec<String>, variadic: bool, args: &Vec<MalType>, captured: usize) -> (e:
    Env)
    ensures
        e@ == call_scope(names_of(params@), variadic, values_of(args@), captured as nat),
{
    let ghost names = names_of(params@);
    let ghost vs = values_of(args@);
    let rest = variadic && params.len() >= 2;
    let n: usize = if rest {
        params.len() - 2
    } else {
        params.len()
    };
    let mut env = Env::new(Some(captured));
    let mut i: usize = 0;
    while i < n
        invariant
            i <= n <= params.len(),
            names == names_of(params@),
            vs == values_of(args@),
            env@ == (Scope { vars: fixed_vars(names, vs, i as nat), outer: Some(captured as nat) }),
        decreases n - i,
    {
        let value = if i < args.len() {
            args[i].clone()
        } else {
            MalType::Nil
        };
        env.set(params[i].as_str(), value);
        i += 1;
    }
    if rest {
        let mut left: Vec<MalType> = Vec::new();
        let start: usize = if n <= args.len() {
            n
        } else {
            args.len()
        };
        let mut j: usize = start;
        while j < args.len()
            invariant
                start <= j <= args.len(),
                vs == values_of(args@),
                left.len() == j - start,
                forall|k: int| 0 <= k < left.len() ==> left[k]@ == vs[start + k],
            decreases args.len() - j,
        {
            left.push(args[j].clone());
            j += 1;
        }
        proof {
            assert(values_of(left@) =~= rest_args(vs, n as nat));
            crate::types::lemma_list_value(left);
        }
        env.set(params[params.len() - 1].as_str(), MalType::List(left));
    }
    env
}

/// Applies `f` to arguments that are already evaluated.
pub fn apply_function(f: &MalType, args: Vec<MalType>, rt: &mut Runtime, fuel: usize) -> (r:
    Result<MalType, EvalError>)
    requires
        old(rt).wf(),
    ensures
        final(rt).wf(),
        old(rt)@.scopes.len() <= final(rt)@.scopes.len(),
        step_of(r, final(rt)@) == apply_spec(f@, values_of(args@), old(rt)@, fuel as nat),
    decreases fuel, 1nat, 0nat,
{
    match f {
        MalType::Function { params, body, env, variadic } => {
            if *env >= rt.len() {
                return Err(EvalError::DanglingScope);
            }
            let scope = bind_params(params, *variadic, &args, *env);
            let h = rt.push_scope(scope);
            eval(&**body, h, rt, fuel)
        },
        MalType::Symbol(s) => apply_builtin(s.as_str(), args, rt),
        _ => Err(EvalError::NotAFunction),
    }
}


/// `(def! name form)`.
fn eval_def(items: &Vec<MalType>, env: usize, rt: &mut Runtime, fuel: usize) -> (r: Result<
    MalType,
    EvalError,
>)
    requires
        old(rt).wf(),
        env < old(rt)@.scopes.len(),
    ensures
        final(rt).wf(),
        old(rt)@.scopes.len() <= final(rt)@.scopes.len(),
        step_of(r, final(rt)@) == def_spec(values_of(items@), env as nat, old(rt)@, fuel as nat),
    decreases fuel, 2nat, 0nat,
{
    if items.len() != 3 {
        return Err(EvalError::WrongArity);
    }
    match &items[1] {
        MalType::Symbol(key) => match eval(&items[2], env, rt, fuel) {
            Ok(value) => Ok(rt.define(env, key.as_str(), value)),
            Err(e) => Err(e),
        },
        _ => Err(EvalError::WrongType),
    }
}

/// The bindings of a `let*`, or the parameters of a `fn*`: the items of a
/// list or of a vector.
fn forms_of(v: &MalType) -> (r: Option<&Vec<MalType>>)
    ensures
        match r {
            Some(b) => binding_forms(v@) == Some(values_of(b@)),
            None => binding_forms(v@) is None,
        },
{
    broadcast use group_value_views;

    match v {
        MalType::List(b) => Some(b),
        MalType::Vector(b) => Some(b),
        _ => None,
    }
}

/// `(let* (name form ...) body)`.
fn eval_let(items: &Vec<MalType>, env: usize, rt: &mut Runtime, fuel: usize) -> (r: Result<
    MalType,
    EvalError,
>)
    requires
        old(rt).wf(),
        env < old(rt)@.scopes.len(),
    ensures
        final(rt).wf(),
        old(rt)@.scopes.len() <= final(rt)@.scopes.len(),
        step_of(r, final(rt)@) == let_spec(values_of(items@), env as nat, old(rt)@, fuel as nat),
    decreases fuel, 2nat, 0nat,
{
    if items.len() != 3 {
        return Err(EvalError::WrongArity);
    }
    let bindings = match forms_of(&items[1]) {
        None => {
            return Err(EvalError::WrongType);
        },
        Some(b) => b,
    };
    if bindings.len() % 2 != 0 {
        return Err(EvalError::BadSyntax);
    }
    let ghost b = values_of(bindings@);
    let count: usize = bindings.len() / 2;
    let scope = rt.push_scope(Env::new(Some(env)));
    let ghost w1 = rt@;
    let mut k: usize = 0;
    while k < count
        invariant
            k <= count,
            count == bindings.len() / 2,
            bindings.len() % 2 == 0,
            b == values_of(bindings@),
            rt.wf(),
            scope < rt@.scopes.len(),
            w1.scopes.len() <= rt@.scopes.len(),
            items.len() == 3,
            binding_forms(values_of(items@)[1]) == Some(b),
            scope == old(rt)@.scopes.len(),
            w1 == pushed(old(rt)@, Scope { vars: Map::empty(), outer: Some(env as nat) }),
            let_bindings(b, k as nat, scope as nat, w1, fuel as nat) == done(Value::Nil, rt@),
        decreases count - k,
    {
        match &bindings[2 * k] {
            MalType::Symbol(name) => match eval(&bindings[2 * k + 1], scope, rt, fuel) {
                Ok(value) => {
                    rt.define(scope, name.as_str(), value);
                },
                Err(e) => {
                    proof {
                        lemma_bindings_failure(
                            b,
                            (k + 1) as nat,
                            count as nat,
                            scope as nat,
                            w1,
                            fuel as nat,
                        );
                    }
                    return Err(e);
                },
            },
            _ => {
                proof {
                    lemma_bindings_failure(
                        b,
                        (k + 1) as nat,
                        count as nat,
                        scope as nat,
                        w1,
                        fuel as nat,
                    );
                }
                return Err(EvalError::WrongType);
            },
        }
        k += 1;
    }
    eval(&items[2], scope, rt, fuel)
}

/// `(do form ...)`.
fn eval_do(items: &Vec<MalType>, env: usize, rt: &mut Runtime, fuel: usize) -> (r: Result<
    MalType,
    EvalError,
>)
    requires
        old(rt).wf(),
        env < old(rt)@.scopes.len(),
    ensures
        final(rt).wf(),
        old(rt)@.scopes.len() <= final(rt)@.scopes.len(),
        step_of(r, final(rt)@) == do_spec(values_of(items@), env as nat, old(rt)@, fuel as nat),
    decreases fuel, 2nat, 0nat,
{
    if items.len() < 2 {
        return Err(EvalError::WrongArity);
    }
    match eval_items(items, 1, env, rt, fuel) {
        Err(e) => Err(e),
        Ok(values) => {
            let mut values = values;
            proof {
                lemma_seq_length(values_of(items@).skip(1), env as nat, old(rt)@, fuel as nat);
            }
            let ghost vs = values_of(values@);
            match values.pop() {
                Some(last) => {
                    assert(last@ == vs.last());
                    Ok(last)
                },
                None => Err(EvalError::WrongArity),
            }
        },
    }
}

/// `(if cond yes no)`.
fn eval_if(items: &Vec<MalType>, env: usize, rt: &mut Runtime, fuel: usize) -> (r: Result<
    MalType,
    EvalError,
>)
    requires
        old(rt).wf(),
        env < old(rt)@.scopes.len(),
    ensures
        final(rt).wf(),
        old(rt)@.scopes.len() <= final(rt)@.scopes.len(),
        step_of(r, final(rt)@) == if_spec(values_of(items@), env as nat, old(rt)@, fuel as nat),
    decreases fuel, 2nat, 0nat,
{
    if items.len() != 3 && items.len() != 4 {
        return Err(EvalError::WrongArity);
    }
    match eval(&items[1], env, rt, fuel) {
        Err(e) => Err(e),
        Ok(cond) => {
            if is_truthy(&cond) {
                eval(&items[2], env, rt, fuel)
            } else if items.len() == 4 {
                eval(&items[3], env, rt, fuel)
            } else {
                Ok(MalType::Nil)
            }
        },
    }
}

/// The names of a parameter list, if it is well formed.
fn read_params(params: &Vec<MalType>) -> (r: Result<(Vec<String>, bool), EvalError>)
    ensures
        match r {
            Ok((names, variadic)) => check_params(values_of(params@), 0) is Ok && names_of(names@)
                == symbol_names(values_of(params@)) && variadic == has_rest(values_of(params@)),
            Err(e) => check_params(values_of(params@), 0) == Err::<(), Failure>(e@),
        },
{
    let ghost ps = values_of(params@);
    let mut names: Vec<String> = Vec::new();
    let mut i: usize = 0;
    while i < params.len()
        invariant
            i <= params.len(),
            ps == values_of(params@),
            names.len() == i,
            check_params(ps, 0) == check_params(ps, i as int),
            forall|j: int| 0 <= j < i ==> (#[trigger] ps[j]) is Symbol && ps[j] != Value::Symbol("&"@),
            forall|j: int| 0 <= j < i ==> (#[trigger] names[j])@ == symbol_name(ps[j]),
        decreases params.len() - i,
    {
        match &params[i] {
            MalType::Symbol(name) => {
                if same_text(name.as_str(), "&") {
                    if params.len() - i != 2 {
                        return Err(EvalError::BadSyntax);
                    }
                    match &params[i + 1] {
                        MalType::Symbol(rest) => {
                            names.push(name.clone());
                            names.push(rest.clone());
                            assert(names_of(names@) =~= symbol_names(ps));
                            return Ok((names, true));
                        },
                        _ => {
                            return Err(EvalError::BadSyntax);
                        },
                    }
                }
                names.push(name.clone());
            },
            _ => {
                return Err(EvalError::WrongType);
            },
        }
        i += 1;
    }
    assert(names_of(names@) =~= symbol_names(ps));
    Ok((names, false))
}

/// `(fn* (name ...) body)`.
fn eval_fn(items: &Vec<MalType>, env: usize) -> (r: Result<MalType, EvalError>)
    ensures
        forall|w: World| step_of(r, w) == #[trigger] fn_spec(values_of(items@), env as nat, w),
{
    if items.len() != 3 {
        return Err(EvalError::WrongArity);
    }
    let params = match forms_of(&items[1]) {
        None => {
            return Err(EvalError::WrongType);
        },
        Some(ps) => ps,
    };
    match read_params(params) {
        Err(e) => Err(e),
        Ok((names, variadic)) => Ok(
            MalType::Function { params: names, body: Box::new(items[2].clone()), env, variadic },
        ),
    }
}

/// Evaluates a list as a special form, if its head names one: `def!`,
/// `let*`, `do`, `if` or `fn*`. Otherwise returns `None` and changes nothing.
pub fn handle_special_form(ast: &Vec<MalType>, env: usize, rt: &mut Runtime, fuel: usize) -> (r:
    Option<Result<MalType, EvalError>>)
    requires
        old(rt).wf(),
        env < old(rt)@.scopes.len(),
    ensures
        final(rt).wf(),
        old(rt)@.scopes.len() <= final(rt)@.scopes.len(),
        match r {
            Some(res) => special_form(values_of(ast@), env as nat, old(rt)@, fuel as nat) == Some(
                step_of(res, final(rt)@),
            ),
            None => special_form(values_of(ast@), env as nat, old(rt)@, fuel as nat) is None
                && final(rt)@ == old(rt)@,
        },
    decreases fuel, 3nat, 0nat,
{
    if ast.len() == 0 {
        return None;
    }
    match &ast[0] {
        MalType::Symbol(sym) => {
            let name = sym.as_str();
            if same_text(name, "def!") {
                Some(eval_def(ast, env, rt, fuel))
            } else if same_text(name, "let*") {
                Some(eval_let(ast, env, rt, fuel))
            } else if same_text(name, "do") {
                Some(eval_do(ast, env, rt, fuel))
            } else if same_text(name, "if") {
                Some(eval_if(ast, env, rt, fuel))
            } else if same_text(name, "fn*") {
                Some(eval_fn(ast, env))
            } else {
                None
            }
        },
        _ => None,
    }
}


/// The bindings `m` and the name `name` bound to the symbol of that name.
pub open spec fn self_bound(m: Map<Seq<char>, Value>, name: Seq<char>) -> Map<Seq<char>, Value> {
    m.insert(name, Value::Symbol(name))
}

/// The bindings of the root scope: `nil`, `true` and `false`, and the name
/// of each built-in operation bound to the symbol of that name.
pub open spec fn default_vars() -> Map<Seq<char>, Value> {
    let m = Map::<Seq<char>, Value>::empty().insert("nil"@, Value::Nil).insert(
        "true"@,
        Value::Bool(true),
    ).insert("false"@, Value::Bool(false));
    let m = self_bound(self_bound(self_bound(self_bound(m, "+"@), "-"@), "*"@), "/"@);
    let m = self_bound(
        self_bound(self_bound(self_bound(self_bound(m, "="@), ">"@), ">="@), "<"@),
        "<="@,
    );
    let m = self_bound(self_bound(self_bound(self_bound(m, "list"@), "list?"@), "empty?"@), "count"@);
    let m = self_bound(self_bound(self_bound(self_bound(m, "pr-str"@), "str"@), "prn"@), "println"@);
    self_bound(m, "not"@)
}

/// Binds `name` to the symbol of that name.
fn bind_builtin(env: &mut Env, name: &str)
    ensures
        final(env)@ == (Scope {
            vars: self_bound(old(env)@.vars, name@),
            outer: old(env)@.outer,
        }),
{
    env.set(name, MalType::Symbol(String::from_str(name)));
}

/// A runtime whose only scope, with handle 0, is the root scope with its
/// default bindings.
pub fn create_default_env() -> (rt: Runtime)
    ensures
        rt.wf(),
        rt@ == (World {
            scopes: seq![Scope { vars: default_vars(), outer: None }],
            output: Seq::empty(),
            trace: Seq::empty(),
        }),
{
    let mut env = Env::new(None);
    env.set("nil", MalType::Nil);
    env.set("true", MalType::Bool(true));
    env.set("false", MalType::Bool(false));
    bind_builtin(&mut env, "+");
    bind_builtin(&mut env, "-");
    bind_builtin(&mut env, "*");
    bind_builtin(&mut env, "/");
    bind_builtin(&mut env, "=");
    bind_builtin(&mut env, ">");
    bind_builtin(&mut env, ">=");
    bind_builtin(&mut env, "<");
    bind_builtin(&mut env, "<=");
    bind_builtin(&mut env, "list");
    bind_builtin(&mut env, "list?");
    bind_builtin(&mut env, "empty?");
    bind_builtin(&mut env, "count");
    bind_builtin(&mut env, "pr-str");
    bind_builtin(&mut env, "str");
    bind_builtin(&mut env, "prn");
    bind_builtin(&mut env, "println");
    bind_builtin(&mut env, "not");
    let mut rt = Runtime::new();
    rt.push_scope(env);
    assert(rt@.scopes =~= seq![Scope { vars: default_vars(), outer: None }]);
    rt
}

} // verus!
