use crate::builtins::{
    arithmetic, builtin_spec, builtin_value, fail, is_builtin, truthy, two_numbers, Failure,
};
use crate::env::{defined, lookup, pushed, wf_scopes, Scope, World};
use crate::eval::{
    apply_spec, def_spec, default_vars, entered, eval_seq, eval_spec, form_spec, if_spec,
    is_special_form, special_form,
};
use crate::growth::law_evaluation_extends;
use crate::types::{seqs_equal, values_equal, Value};
use vstd::prelude::*;

verus! {

/// Whether scope `h` is scope `env` or one of the scopes that enclose it.
pub open spec fn on_chain(scopes: Seq<Scope>, env: nat, h: nat) -> bool
    decreases env,
{
    env < scopes.len() && (h == env || match scopes[env as int].outer {
        Some(o) => o < env && on_chain(scopes, o, h),
        None => false,
    })
}

/// The scopes that enclose a scope were made before it.
pub proof fn law_chain_goes_down(scopes: Seq<Scope>, env: nat, h: nat)
    requires
        on_chain(scopes, env, h),
    ensures
        h <= env,
        h < scopes.len(),
    decreases env,
{
    if h != env {
        law_chain_goes_down(scopes, scopes[env as int].outer->0, h);
    }
}

/// A lookup reads only the scopes on the chain: two worlds that agree on
/// them give the same answer, whatever their other scopes hold.
pub proof fn law_lookup_reads_the_chain(a: Seq<Scope>, b: Seq<Scope>, env: nat, key: Seq<char>)
    requires
        env < a.len(),
        forall|h: nat| #[trigger] on_chain(a, env, h) ==> h < b.len() && b[h as int] == a[h as int],
    ensures
        lookup(b, env, key) == lookup(a, env, key),
    decreases env,
{
    assert(on_chain(a, env, env));
    if !a[env as int].vars.contains_key(key) {
        if let Some(o) = a[env as int].outer {
            if o < env {
                assert forall|h: nat| #[trigger] on_chain(a, o, h) implies h < b.len() && b[h as int]
                    == a[h as int] by {
                    assert(on_chain(a, env, h));
                }
                law_lookup_reads_the_chain(a, b, o, key);
            }
        }
    }
}

/// A symbol that no scope on the chain binds is not found, whatever the
/// scopes off the chain bind.
pub proof fn law_unbound_on_chain(scopes: Seq<Scope>, env: nat, key: Seq<char>)
    requires
        forall|h: nat| #[trigger] on_chain(scopes, env, h) ==> !scopes[h as int].vars.contains_key(key),
    ensures
        lookup(scopes, env, key) is None,
    decreases env,
{
    if env < scopes.len() {
        assert(on_chain(scopes, env, env));
        if let Some(o) = scopes[env as int].outer {
            if o < env {
                assert forall|h: nat| #[trigger] on_chain(scopes, o, h) implies !scopes[h as int].vars.contains_key(
                    key,
                ) by {
                    assert(on_chain(scopes, env, h));
                }
                law_unbound_on_chain(scopes, o, key);
            }
        }
    }
}

/// A scope that is made later, and whatever is bound in it, is invisible
/// from the scopes that were there before: what a closure resolves through
/// the scope that it captured does not change when a new scope shadows a
/// name.
pub proof fn law_capture_isolation(
    w: World,
    env: nat,
    child: Scope,
    name: Seq<char>,
    v: Value,
    key: Seq<char>,
)
    requires
        env < w.scopes.len(),
    ensures
        lookup(pushed(w, child).scopes, env, key) == lookup(w.scopes, env, key),
        lookup(defined(pushed(w, child), w.scopes.len(), name, v).scopes, env, key) == lookup(
            w.scopes,
            env,
            key,
        ),
{
    let a = w.scopes;
    let b = pushed(w, child).scopes;
    let c = defined(pushed(w, child), w.scopes.len(), name, v).scopes;
    assert forall|h: nat| #[trigger] on_chain(a, env, h) implies h < b.len() && b[h as int] == a[h as int]
        && h < c.len() && c[h as int] == a[h as int] by {
        law_chain_goes_down(a, env, h);
    }
    law_lookup_reads_the_chain(a, b, env, key);
    law_lookup_reads_the_chain(a, c, env, key);
}

/// Binding a name in one scope leaves what is seen from a scope that was
/// made before it as it was.
pub proof fn law_define_above_is_invisible(
    w: World,
    env: nat,
    h: nat,
    name: Seq<char>,
    v: Value,
    key: Seq<char>,
)
    requires
        env < h < w.scopes.len(),
    ensures
        lookup(defined(w, h, name, v).scopes, env, key) == lookup(w.scopes, env, key),
{
    let a = w.scopes;
    let b = defined(w, h, name, v).scopes;
    assert forall|k: nat| #[trigger] on_chain(a, env, k) implies k < b.len() && b[k as int] == a[k as int] by {
        law_chain_goes_down(a, env, k);
    }
    law_lookup_reads_the_chain(a, b, env, key);
}

/// After a name is bound in a scope, a lookup from that scope gives the
/// value.
pub proof fn law_define_then_lookup(w: World, env: nat, name: Seq<char>, v: Value)
    requires
        env < w.scopes.len(),
    ensures
        lookup(defined(w, env, name, v).scopes, env, name) == Some(v),
{
}

/// Two worlds have the same scopes and the same printed lines: they differ
/// at most in the diagnostic trace.
pub open spec fn same_but_trace(a: World, b: World) -> bool {
    a.scopes == b.scopes && a.output == b.output
}

/// The values that evaluate to themselves.
pub open spec fn self_evaluating(v: Value) -> bool {
    !(v is Symbol) && !(v is List) && !(v is Vector) && !(v is Dict)
}

/// A number, a string, a keyword, `nil`, a boolean or a function evaluates
/// to itself in every scope of every world; nothing is bound and nothing is
/// printed.
pub proof fn law_atom_evaluates_to_itself(v: Value, env: nat, w: World, depth: nat)
    requires
        depth > 0,
        self_evaluating(v),
    ensures
        eval_spec(v, env, w, depth).result == Ok::<Value, Failure>(v),
        same_but_trace(eval_spec(v, env, w, depth).world, w),
{
}

/// A number evaluates to itself.
pub proof fn law_number_evaluates_to_itself(n: int, env: nat, w: World, depth: nat)
    requires
        depth > 0,
    ensures
        eval_spec(Value::Number(n), env, w, depth).result == Ok::<Value, Failure>(Value::Number(n)),
        same_but_trace(eval_spec(Value::Number(n), env, w, depth).world, w),
{
    law_atom_evaluates_to_itself(Value::Number(n), env, w, depth);
}

/// A symbol evaluates to what the chain of its scope binds it to, and fails
/// as not found where no scope on the chain binds it.
pub proof fn law_symbol_evaluates_to_its_binding(s: Seq<char>, env: nat, w: World, depth: nat)
    requires
        depth > 0,
    ensures
        eval_spec(Value::Symbol(s), env, w, depth).result == match lookup(w.scopes, env, s) {
            Some(v) => Ok::<Value, Failure>(v),
            None => Err(Failure::SymbolNotFound(s)),
        },
        same_but_trace(eval_spec(Value::Symbol(s), env, w, depth).world, w),
{
}

/// A symbol that no scope on the chain binds fails as not found, even where
/// a scope off the chain binds it.
pub proof fn law_unbound_symbol_fails(s: Seq<char>, env: nat, w: World, depth: nat)
    requires
        depth > 0,
        forall|h: nat| #[trigger] on_chain(w.scopes, env, h) ==> !w.scopes[h as int].vars.contains_key(s),
    ensures
        eval_spec(Value::Symbol(s), env, w, depth).result == Err::<Value, Failure>(
            Failure::SymbolNotFound(s),
        ),
{
    law_unbound_on_chain(w.scopes, env, s);
    law_symbol_evaluates_to_its_binding(s, env, w, depth);
}


/// A form whose evaluation binds nothing and prints nothing: a value that
/// evaluates to itself, or a symbol.
pub open spec fn simple(v: Value) -> bool {
    self_evaluating(v) || v is Symbol
}

/// What a simple form evaluates to.
pub open spec fn simple_result(v: Value, scopes: Seq<Scope>, env: nat) -> Result<Value, Failure> {
    match v {
        Value::Symbol(s) => match lookup(scopes, env, s) {
            Some(x) => Ok(x),
            None => Err(Failure::SymbolNotFound(s)),
        },
        _ => Ok(v),
    }
}

/// A sequence of simple forms that all have a value evaluates to the
/// sequence of their values.
pub proof fn law_simple_forms(items: Seq<Value>, env: nat, w: World, fuel: nat)
    requires
        fuel > 0,
        forall|i: int| 0 <= i < items.len() ==> simple(#[trigger] items[i]) && simple_result(
            items[i],
            w.scopes,
            env,
        ) is Ok,
    ensures
        eval_seq(items, env, w, fuel).result matches Ok(vs) && vs.len() == items.len() && forall|
            i: int,
        |
            0 <= i < items.len() ==> Ok::<Value, Failure>(#[trigger] vs[i]) == simple_result(
                items[i],
                w.scopes,
                env,
            ),
        same_but_trace(eval_seq(items, env, w, fuel).world, w),
    decreases items.len(),
{
    if items.len() > 0 {
        let front = items.drop_last();
        assert forall|i: int| 0 <= i < front.len() implies simple(#[trigger] front[i])
            && simple_result(front[i], w.scopes, env) is Ok by {
            assert(front[i] == items[i]);
        }
        law_simple_forms(front, env, w, fuel);
        let r = eval_seq(front, env, w, fuel);
        let last = items.last();
        assert(simple(last) && simple_result(last, w.scopes, env) is Ok) by {
            assert(last == items[items.len() - 1]);
        }
        match last {
            Value::Symbol(s) => law_symbol_evaluates_to_its_binding(s, env, r.world, fuel),
            _ => law_atom_evaluates_to_itself(last, env, r.world, fuel),
        }
    }
}

/// The names of the four arithmetic operations.
pub open spec fn is_arithmetic(op: Seq<char>) -> bool {
    op == "+"@ || op == "-"@ || op == "*"@ || op == "/"@
}

/// Where an arithmetic operation is bound to the symbol of its name, as in
/// the root scope, applying it to two numbers gives their sum, difference,
/// product or quotient rounded towards zero; a quotient by zero fails as a
/// division by zero, and a result that is no 64-bit signed integer as an
/// overflow.
pub proof fn law_arithmetic(op: Seq<char>, a: int, b: int, env: nat, w: World, depth: nat)
    requires
        depth >= 2,
        is_arithmetic(op),
        lookup(w.scopes, env, op) == Some(Value::Symbol(op)),
    ensures
        eval_spec(
            Value::List(seq![Value::Symbol(op), Value::Number(a), Value::Number(b)]),
            env,
            w,
            depth,
        ).result == arithmetic(op, a, b),
        same_but_trace(
            eval_spec(
                Value::List(seq![Value::Symbol(op), Value::Number(a), Value::Number(b)]),
                env,
                w,
                depth,
            ).world,
            w,
        ),
{
    reveal_strlit("+");
    reveal_strlit("-");
    reveal_strlit("*");
    reveal_strlit("/");
    reveal_strlit("def!");
    reveal_strlit("let*");
    reveal_strlit("do");
    reveal_strlit("if");
    reveal_strlit("fn*");
    reveal_strlit("prn");
    reveal_strlit("println");
    let items = seq![Value::Symbol(op), Value::Number(a), Value::Number(b)];
    let ast = Value::List(items);
    let fuel = (depth - 1) as nat;
    let w1 = entered(ast, env, w);
    assert(op.len() == 1);
    assert(special_form(items, env, w1, fuel) is None);
    assert forall|i: int| 0 <= i < items.len() implies simple(#[trigger] items[i])
        && simple_result(items[i], w1.scopes, env) is Ok by {}
    law_simple_forms(items, env, w1, fuel);
    let r = eval_seq(items, env, w1, fuel);
    let vs = r.result->Ok_0;
    assert(vs[0] == Value::Symbol(op));
    assert(vs[1] == Value::Number(a));
    assert(vs[2] == Value::Number(b));
    let args = vs.skip(1);
    assert(args.len() == 2 && args[0] == vs[1] && args[1] == vs[2]);
    assert(two_numbers(args) == Ok::<(int, int), Failure>((a, b)));
    assert(builtin_value(op, args) == arithmetic(op, a, b));
    assert(apply_spec(vs[0], args, r.world, fuel) == builtin_spec(op, args, r.world));
    assert(form_spec(ast, env, w1, fuel) == apply_spec(vs[0], args, r.world, fuel));
}

/// `(def! name form)` gives the value of the form and leaves the name bound
/// to it in the current scope: a lookup of the name from that scope then
/// gives the value.
pub proof fn law_def_binds(name: Seq<char>, form: Value, env: nat, w: World, depth: nat)
    requires
        depth >= 1,
        wf_scopes(w.scopes),
        env < w.scopes.len(),
    ensures
        ({
            let ast = Value::List(seq![Value::Symbol("def!"@), Value::Symbol(name), form]);
            let inner = eval_spec(form, env, entered(ast, env, w), (depth - 1) as nat);
            let out = eval_spec(ast, env, w, depth);
            &&& out.result == inner.result
            &&& inner.result matches Ok(v) ==> lookup(out.world.scopes, env, name) == Some(v)
        }),
{
    let items = seq![Value::Symbol("def!"@), Value::Symbol(name), form];
    let ast = Value::List(items);
    let fuel = (depth - 1) as nat;
    let w1 = entered(ast, env, w);
    assert(special_form(items, env, w1, fuel) == Some(def_spec(items, env, w1, fuel)));
    law_evaluation_extends(form, env, w1, fuel);
    let inner = eval_spec(form, env, w1, fuel);
    if let Ok(v) = inner.result {
        law_define_then_lookup(inner.world, env, name, v);
    }
}

/// `(if cond branch)` gives `nil` where the condition evaluates to `nil` or
/// to `false`, and the value of the branch for every other value of the
/// condition.
pub proof fn law_if_without_else(cond: Value, branch: Value, env: nat, w: World, depth: nat)
    requires
        depth >= 1,
    ensures
        ({
            let ast = Value::List(seq![Value::Symbol("if"@), cond, branch]);
            let c = eval_spec(cond, env, entered(ast, env, w), (depth - 1) as nat);
            let out = eval_spec(ast, env, w, depth);
            match c.result {
                Ok(v) => if truthy(v) {
                    out.result == eval_spec(branch, env, c.world, (depth - 1) as nat).result
                } else {
                    out.result == Ok::<Value, Failure>(Value::Nil)
                },
                Err(e) => out.result == Err::<Value, Failure>(e),
            }
        }),
{
    reveal_strlit("def!");
    reveal_strlit("let*");
    reveal_strlit("do");
    reveal_strlit("if");
    let items = seq![Value::Symbol("if"@), cond, branch];
    let ast = Value::List(items);
    let fuel = (depth - 1) as nat;
    let w1 = entered(ast, env, w);
    assert("if"@.len() == 2 && "if"@[0] == 'i');
    assert("do"@.len() == 2 && "do"@[0] == 'd');
    assert("def!"@.len() == 4 && "let*"@.len() == 4);
    assert(special_form(items, env, w1, fuel) == Some(if_spec(items, env, w1, fuel)));
}

/// A function is equal to nothing, not even to itself.
pub proof fn law_function_never_equal(a: Value, b: Value)
    requires
        a is Function || b is Function,
    ensures
        !values_equal(a, b),
{
}

/// A list and a vector with equal items are equal.
pub proof fn law_list_equals_vector(x: Seq<Value>, y: Seq<Value>)
    ensures
        values_equal(Value::List(x), Value::Vector(y)) == seqs_equal(x, y),
        values_equal(Value::Vector(x), Value::List(y)) == seqs_equal(x, y),
        values_equal(Value::List(x), Value::List(y)) == seqs_equal(x, y),
        values_equal(Value::Vector(x), Value::Vector(y)) == seqs_equal(x, y),
{
}

/// A symbol that names no built-in operation cannot be applied: whatever
/// the arguments, the application fails as not a function and changes
/// nothing.
pub proof fn law_unknown_operation_fails(name: Seq<char>, args: Seq<Value>, w: World, fuel: nat)
    requires
        !is_builtin(name),
    ensures
        apply_spec(Value::Symbol(name), args, w, fuel) == fail(Failure::NotAFunction, w),
{
}

/// The root scope binds each arithmetic operation to the symbol of its
/// name.
pub proof fn law_root_binds_arithmetic(op: Seq<char>)
    requires
        is_arithmetic(op),
    ensures
        default_vars().contains_key(op),
        default_vars()[op] == Value::Symbol(op),
{
    reveal_strlit("nil");
    reveal_strlit("true");
    reveal_strlit("false");
    reveal_strlit("+");
    reveal_strlit("-");
    reveal_strlit("*");
    reveal_strlit("/");
    reveal_strlit("=");
    reveal_strlit(">");
    reveal_strlit(">=");
    reveal_strlit("<");
    reveal_strlit("<=");
    reveal_strlit("list");
    reveal_strlit("list?");
    reveal_strlit("empty?");
    reveal_strlit("count");
    reveal_strlit("pr-str");
    reveal_strlit("str");
    reveal_strlit("prn");
    reveal_strlit("println");
    reveal_strlit("not");
    assert(op.len() == 1);
    assert("="@.len() == 1 && ">"@.len() == 1 && "<"@.len() == 1);
    assert("="@[0] == '=' && ">"@[0] == '>' && "<"@[0] == '<');
    assert("+"@[0] == '+' && "-"@[0] == '-' && "*"@[0] == '*' && "/"@[0] == '/');
}

/// In a world whose only scope is the root scope, applying an arithmetic
/// operation to two numbers gives what the operation gives for them.
pub proof fn law_arithmetic_in_the_root_scope(
    op: Seq<char>,
    a: int,
    b: int,
    output: Seq<Seq<char>>,
    trace: Seq<Seq<char>>,
    depth: nat,
)
    requires
        depth >= 2,
        is_arithmetic(op),
    ensures
        eval_spec(
            Value::List(seq![Value::Symbol(op), Value::Number(a), Value::Number(b)]),
            0,
            World { scopes: seq![Scope { vars: default_vars(), outer: None }], output, trace },
            depth,
        ).result == arithmetic(op, a, b),
{
    let w = World { scopes: seq![Scope { vars: default_vars(), outer: None }], output, trace };
    law_root_binds_arithmetic(op);
    assert(lookup(w.scopes, 0, op) == Some(Value::Symbol(op)));
    law_arithmetic(op, a, b, 0, w, depth);
}

/// A list is evaluated as a special form exactly where its head is a symbol
/// that names one; every other list that is not empty is an application.
pub proof fn law_special_forms(items: Seq<Value>, env: nat, w: World, fuel: nat)
    ensures
        special_form(items, env, w, fuel) is Some <==> items.len() > 0 && (items[0] matches Value::Symbol(
            s,
        ) && is_special_form(s)),
{
}

} // verus!
