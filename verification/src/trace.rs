use crate::builtins::Step;
use crate::env::{pushed, Scope, World};
use crate::eval::{
    apply_spec, binding_forms, call_scope, def_spec, do_spec, entered, eval_ast_spec, eval_pairs,
    eval_seq, eval_spec, form_spec, if_spec, let_bindings, let_spec, special_form,
};
use crate::laws::same_but_trace;
use crate::types::Value;
use vstd::prelude::*;

verus! {

/// Two steps gave the same result and left worlds that differ at most in
/// the diagnostic trace.
pub open spec fn same_step(s: Step, t: Step) -> bool {
    s.result == t.result && same_but_trace(s.world, t.world)
}

/// The diagnostic trace is written and never read: in two worlds that
/// differ at most in their traces, a form evaluates to the same result,
/// binds the same names and prints the same lines.
pub proof fn law_trace_is_not_read(ast: Value, env: nat, a: World, b: World, depth: nat)
    requires
        same_but_trace(a, b),
    ensures
        same_step(eval_spec(ast, env, a, depth), eval_spec(ast, env, b, depth)),
    decreases depth, 0nat, 0nat,
{
    if depth > 0 {
        lemma_form_same(ast, env, entered(ast, env, a), entered(ast, env, b), (depth - 1) as nat);
    }
}

/// The same of one form.
proof fn lemma_form_same(ast: Value, env: nat, a: World, b: World, fuel: nat)
    requires
        same_but_trace(a, b),
    ensures
        same_step(form_spec(ast, env, a, fuel), form_spec(ast, env, b, fuel)),
    decreases fuel, 4nat, 0nat,
{
    match ast {
        Value::List(items) => {
            if items.len() == 0 {
                lemma_ast_same(ast, env, a, b, fuel);
            } else {
                lemma_special_same(items, env, a, b, fuel);
                if special_form(items, env, a, fuel) is None {
                    lemma_seq_same(items, env, a, b, fuel);
                    let ra = eval_seq(items, env, a, fuel);
                    let rb = eval_seq(items, env, b, fuel);
                    if let Ok(vs) = ra.result {
                        lemma_apply_same(vs[0], vs.skip(1), ra.world, rb.world, fuel);
                    }
                }
            }
        },
        _ => lemma_ast_same(ast, env, a, b, fuel),
    }
}

/// The same of a form that is evaluated by its structure.
proof fn lemma_ast_same(ast: Value, env: nat, a: World, b: World, fuel: nat)
    requires
        same_but_trace(a, b),
    ensures
        same_step(eval_ast_spec(ast, env, a, fuel), eval_ast_spec(ast, env, b, fuel)),
    decreases fuel, 2nat, 0nat,
{
    match ast {
        Value::List(items) => lemma_seq_same(items, env, a, b, fuel),
        Value::Vector(items) => lemma_seq_same(items, env, a, b, fuel),
        Value::Dict(pairs) => lemma_pairs_same(pairs, env, a, b, fuel),
        _ => {},
    }
}

/// The same of a sequence of forms.
proof fn lemma_seq_same(items: Seq<Value>, env: nat, a: World, b: World, fuel: nat)
    requires
        same_but_trace(a, b),
    ensures
        eval_seq(items, env, a, fuel).result == eval_seq(items, env, b, fuel).result,
        same_but_trace(eval_seq(items, env, a, fuel).world, eval_seq(items, env, b, fuel).world),
    decreases fuel, 1nat, items.len(),
{
    if items.len() > 0 {
        lemma_seq_same(items.drop_last(), env, a, b, fuel);
        let ra = eval_seq(items.drop_last(), env, a, fuel);
        let rb = eval_seq(items.drop_last(), env, b, fuel);
        if ra.result is Ok {
            law_trace_is_not_read(items.last(), env, ra.world, rb.world, fuel);
        }
    }
}

/// The same of the values of a map.
proof fn lemma_pairs_same(pairs: Seq<(Value, Value)>, env: nat, a: World, b: World, fuel: nat)
    requires
        same_but_trace(a, b),
    ensures
        same_step(eval_pairs(pairs, env, a, fuel), eval_pairs(pairs, env, b, fuel)),
    decreases fuel, 1nat, pairs.len(),
{
    if pairs.len() > 0 {
        lemma_pairs_same(pairs.drop_last(), env, a, b, fuel);
        let ra = eval_pairs(pairs.drop_last(), env, a, fuel);
        let rb = eval_pairs(pairs.drop_last(), env, b, fuel);
        if ra.result matches Ok(Value::Dict(_)) {
            law_trace_is_not_read(pairs.last().1, env, ra.world, rb.world, fuel);
        }
    }
}

/// The same of the bindings of a `let*`.
proof fn lemma_bindings_same(b: Seq<Value>, k: nat, scope: nat, x: World, y: World, fuel: nat)
    requires
        same_but_trace(x, y),
    ensures
        same_step(let_bindings(b, k, scope, x, fuel), let_bindings(b, k, scope, y, fuel)),
    decreases fuel, 1nat, k,
{
    if k > 0 {
        lemma_bindings_same(b, (k - 1) as nat, scope, x, y, fuel);
        let rx = let_bindings(b, (k - 1) as nat, scope, x, fuel);
        let ry = let_bindings(b, (k - 1) as nat, scope, y, fuel);
        if rx.result is Ok {
            if b[2 * k - 2] is Symbol {
                law_trace_is_not_read(b[2 * k - 1], scope, rx.world, ry.world, fuel);
            }
        }
    }
}

/// The same of an application.
proof fn lemma_apply_same(f: Value, args: Seq<Value>, a: World, b: World, fuel: nat)
    requires
        same_but_trace(a, b),
    ensures
        same_step(apply_spec(f, args, a, fuel), apply_spec(f, args, b, fuel)),
    decreases fuel, 1nat, 0nat,
{
    match f {
        Value::Function { params, body, env, variadic } => {
            if env < a.scopes.len() {
                let scope = call_scope(params, variadic, args, env);
                law_trace_is_not_read(*body, a.scopes.len(), pushed(a, scope), pushed(b, scope), fuel);
            }
        },
        _ => {},
    }
}

/// The same of a special form.
proof fn lemma_special_same(items: Seq<Value>, env: nat, a: World, b: World, fuel: nat)
    requires
        same_but_trace(a, b),
    ensures
        special_form(items, env, a, fuel) is None <==> special_form(items, env, b, fuel) is None,
        special_form(items, env, a, fuel) matches Some(s) ==> same_step(
            s,
            special_form(items, env, b, fuel)->0,
        ),
    decreases fuel, 3nat, 0nat,
{
    if special_form(items, env, a, fuel) is Some {
        lemma_def_same(items, env, a, b, fuel);
        lemma_let_same(items, env, a, b, fuel);
        lemma_do_same(items, env, a, b, fuel);
        lemma_if_same(items, env, a, b, fuel);
    }
}

/// The same of `def!`.
proof fn lemma_def_same(items: Seq<Value>, env: nat, a: World, b: World, fuel: nat)
    requires
        same_but_trace(a, b),
    ensures
        same_step(def_spec(items, env, a, fuel), def_spec(items, env, b, fuel)),
    decreases fuel, 2nat, 0nat,
{
    if items.len() == 3 && items[1] is Symbol {
        law_trace_is_not_read(items[2], env, a, b, fuel);
    }
}

/// The same of `let*`.
proof fn lemma_let_same(items: Seq<Value>, env: nat, a: World, b: World, fuel: nat)
    requires
        same_but_trace(a, b),
    ensures
        same_step(let_spec(items, env, a, fuel), let_spec(items, env, b, fuel)),
    decreases fuel, 2nat, 0nat,
{
    if items.len() == 3 {
        if let Some(forms) = binding_forms(items[1]) {
            if forms.len() % 2 == 0 {
                let scope = a.scopes.len();
                let child = Scope { vars: Map::empty(), outer: Some(env) };
                lemma_bindings_same(
                    forms,
                    forms.len() / 2,
                    scope,
                    pushed(a, child),
                    pushed(b, child),
                    fuel,
                );
                let ra = let_bindings(forms, forms.len() / 2, scope, pushed(a, child), fuel);
                let rb = let_bindings(forms, forms.len() / 2, scope, pushed(b, child), fuel);
                if ra.result is Ok {
                    law_trace_is_not_read(items[2], scope, ra.world, rb.world, fuel);
                }
            }
        }
    }
}

/// The same of `do`.
proof fn lemma_do_same(items: Seq<Value>, env: nat, a: World, b: World, fuel: nat)
    requires
        same_but_trace(a, b),
    ensures
        same_step(do_spec(items, env, a, fuel), do_spec(items, env, b, fuel)),
    decreases fuel, 2nat, 0nat,
{
    if items.len() >= 2 {
        lemma_seq_same(items.skip(1), env, a, b, fuel);
    }
}

/// The same of `if`.
proof fn lemma_if_same(items: Seq<Value>, env: nat, a: World, b: World, fuel: nat)
    requires
        same_but_trace(a, b),
    ensures
        same_step(if_spec(items, env, a, fuel), if_spec(items, env, b, fuel)),
    decreases fuel, 2nat, 0nat,
{
    if items.len() == 3 || items.len() == 4 {
        law_trace_is_not_read(items[1], env, a, b, fuel);
        let ca = eval_spec(items[1], env, a, fuel);
        let cb = eval_spec(items[1], env, b, fuel);
        if ca.result is Ok {
            law_trace_is_not_read(items[2], env, ca.world, cb.world, fuel);
            if items.len() == 4 {
                law_trace_is_not_read(items[3], env, ca.world, cb.world, fuel);
            }
        }
    }
}

} // verus!
