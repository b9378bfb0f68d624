use crate::env::{defined, pushed, wf_scopes, Scope, World};
use crate::eval::{
    apply_spec, binding_forms, call_scope, def_spec, do_spec, entered, eval_ast_spec, eval_pairs,
    eval_seq, eval_spec, form_spec, if_spec, let_bindings, let_spec, special_form,
};
use crate::types::Value;
use vstd::prelude::*;

verus! {

/// The world `b` is what the well-formed world `a` can become: it has the
/// scopes of `a`, each enclosed as before, maybe with other bindings, and
/// maybe more scopes after them; and it is well formed.
pub open spec fn extends(a: World, b: World) -> bool {
    &&& a.scopes.len() <= b.scopes.len()
    &&& wf_scopes(b.scopes)
    &&& forall|h: int|
        0 <= h < a.scopes.len() ==> (#[trigger] b.scopes[h]).outer == a.scopes[h].outer
}

/// What a world can become, it can become in two steps.
pub proof fn lemma_extends_trans(a: World, b: World, c: World)
    requires
        extends(a, b),
        extends(b, c),
    ensures
        extends(a, c),
{
    assert forall|h: int| 0 <= h < a.scopes.len() implies (#[trigger] c.scopes[h]).outer
        == a.scopes[h].outer by {
        assert(b.scopes[h].outer == a.scopes[h].outer);
    }
}

/// Binding a name in a scope keeps the world well formed.
pub proof fn lemma_extends_defined(w: World, env: nat, name: Seq<char>, v: Value)
    requires
        wf_scopes(w.scopes),
        env < w.scopes.len(),
    ensures
        extends(w, defined(w, env, name, v)),
{
    let b = defined(w, env, name, v);
    assert forall|h: int| 0 <= h < b.scopes.len() implies (#[trigger] b.scopes[h]).outer
        == w.scopes[h].outer by {}
    assert forall|i: int| 0 <= i < b.scopes.len() implies ((#[trigger] b.scopes[i]).outer matches Some(
        o,
    ) ==> o < i) by {
        assert(b.scopes[i].outer == w.scopes[i].outer);
    }
}

/// A new scope that an older one encloses keeps the world well formed.
pub proof fn lemma_extends_pushed(w: World, scope: Scope)
    requires
        wf_scopes(w.scopes),
        scope.outer matches Some(o) ==> o < w.scopes.len(),
    ensures
        extends(w, pushed(w, scope)),
{
    let b = pushed(w, scope);
    assert forall|i: int| 0 <= i < b.scopes.len() implies ((#[trigger] b.scopes[i]).outer matches Some(
        o,
    ) ==> o < i) by {
        if i < w.scopes.len() {
            assert(b.scopes[i] == w.scopes[i]);
        }
    }
}

/// Evaluation keeps the world well formed: the scopes that were there stay
/// where they are and enclosed as they were, and every new scope is enclosed
/// by an older one.
pub proof fn law_evaluation_extends(ast: Value, env: nat, w: World, depth: nat)
    requires
        wf_scopes(w.scopes),
        env < w.scopes.len(),
    ensures
        extends(w, eval_spec(ast, env, w, depth).world),
    decreases depth, 0nat, 0nat,
{
    if depth > 0 {
        let w1 = entered(ast, env, w);
        lemma_form_extends(ast, env, w1, (depth - 1) as nat);
    }
}

/// The same of one form.
proof fn lemma_form_extends(ast: Value, env: nat, w: World, fuel: nat)
    requires
        wf_scopes(w.scopes),
        env < w.scopes.len(),
    ensures
        extends(w, form_spec(ast, env, w, fuel).world),
    decreases fuel, 4nat, 0nat,
{
    match ast {
        Value::List(items) => {
            if items.len() == 0 {
                lemma_ast_extends(ast, env, w, fuel);
            } else {
                lemma_special_extends(items, env, w, fuel);
                if special_form(items, env, w, fuel) is None {
                    lemma_seq_extends(items, env, w, fuel);
                    let r = eval_seq(items, env, w, fuel);
                    if let Ok(vs) = r.result {
                        lemma_apply_extends(vs[0], vs.skip(1), r.world, fuel);
                        lemma_extends_trans(
                            w,
                            r.world,
                            apply_spec(vs[0], vs.skip(1), r.world, fuel).world,
                        );
                    }
                }
            }
        },
        _ => lemma_ast_extends(ast, env, w, fuel),
    }
}

/// The same of a form that is evaluated by its structure.
proof fn lemma_ast_extends(ast: Value, env: nat, w: World, fuel: nat)
    requires
        wf_scopes(w.scopes),
        env < w.scopes.len(),
    ensures
        extends(w, eval_ast_spec(ast, env, w, fuel).world),
    decreases fuel, 2nat, 0nat,
{
    match ast {
        Value::List(items) => lemma_seq_extends(items, env, w, fuel),
        Value::Vector(items) => lemma_seq_extends(items, env, w, fuel),
        Value::Dict(pairs) => lemma_pairs_extends(pairs, env, w, fuel),
        _ => {},
    }
}

/// The same of a sequence of forms.
proof fn lemma_seq_extends(items: Seq<Value>, env: nat, w: World, fuel: nat)
    requires
        wf_scopes(w.scopes),
        env < w.scopes.len(),
    ensures
        extends(w, eval_seq(items, env, w, fuel).world),
    decreases fuel, 1nat, items.len(),
{
    if items.len() > 0 {
        lemma_seq_extends(items.drop_last(), env, w, fuel);
        let r = eval_seq(items.drop_last(), env, w, fuel);
        if r.result is Ok {
            law_evaluation_extends(items.last(), env, r.world, fuel);
            lemma_extends_trans(w, r.world, eval_spec(items.last(), env, r.world, fuel).world);
        }
    }
}

/// The same of the values of a map.
proof fn lemma_pairs_extends(pairs: Seq<(Value, Value)>, env: nat, w: World, fuel: nat)
    requires
        wf_scopes(w.scopes),
        env < w.scopes.len(),
    ensures
        extends(w, eval_pairs(pairs, env, w, fuel).world),
    decreases fuel, 1nat, pairs.len(),
{
    if pairs.len() > 0 {
        lemma_pairs_extends(pairs.drop_last(), env, w, fuel);
        let r = eval_pairs(pairs.drop_last(), env, w, fuel);
        if r.result matches Ok(Value::Dict(_)) {
            law_evaluation_extends(pairs.last().1, env, r.world, fuel);
            lemma_extends_trans(w, r.world, eval_spec(pairs.last().1, env, r.world, fuel).world);
        }
    }
}

/// The same of the bindings of a `let*`.
proof fn lemma_bindings_extend(b: Seq<Value>, k: nat, scope: nat, w: World, fuel: nat)
    requires
        wf_scopes(w.scopes),
        scope < w.scopes.len(),
    ensures
        extends(w, let_bindings(b, k, scope, w, fuel).world),
    decreases fuel, 1nat, k,
{
    if k > 0 {
        lemma_bindings_extend(b, (k - 1) as nat, scope, w, fuel);
        let r = let_bindings(b, (k - 1) as nat, scope, w, fuel);
        if r.result is Ok {
            if let Value::Symbol(name) = b[2 * k - 2] {
                law_evaluation_extends(b[2 * k - 1], scope, r.world, fuel);
                let s = eval_spec(b[2 * k - 1], scope, r.world, fuel);
                lemma_extends_trans(w, r.world, s.world);
                if let Ok(v) = s.result {
                    lemma_extends_defined(s.world, scope, name, v);
                    lemma_extends_trans(w, s.world, defined(s.world, scope, name, v));
                }
            }
        }
    }
}

/// The same of an application.
proof fn lemma_apply_extends(f: Value, args: Seq<Value>, w: World, fuel: nat)
    requires
        wf_scopes(w.scopes),
    ensures
        extends(w, apply_spec(f, args, w, fuel).world),
    decreases fuel, 1nat, 0nat,
{
    match f {
        Value::Function { params, body, env, variadic } => {
            if env < w.scopes.len() {
                let scope = call_scope(params, variadic, args, env);
                let w1 = pushed(w, scope);
                lemma_extends_pushed(w, scope);
                law_evaluation_extends(*body, w.scopes.len(), w1, fuel);
                lemma_extends_trans(w, w1, eval_spec(*body, w.scopes.len(), w1, fuel).world);
            }
        },
        _ => {},
    }
}

/// The same of a special form.
proof fn lemma_special_extends(items: Seq<Value>, env: nat, w: World, fuel: nat)
    requires
        wf_scopes(w.scopes),
        env < w.scopes.len(),
    ensures
        special_form(items, env, w, fuel) matches Some(s) ==> extends(w, s.world),
    decreases fuel, 3nat, 0nat,
{
    if special_form(items, env, w, fuel) is Some {
        lemma_def_extends(items, env, w, fuel);
        lemma_let_extends(items, env, w, fuel);
        lemma_do_extends(items, env, w, fuel);
        lemma_if_extends(items, env, w, fuel);
    }
}

/// The same of `def!`.
proof fn lemma_def_extends(items: Seq<Value>, env: nat, w: World, fuel: nat)
    requires
        wf_scopes(w.scopes),
        env < w.scopes.len(),
    ensures
        extends(w, def_spec(items, env, w, fuel).world),
    decreases fuel, 2nat, 0nat,
{
    if items.len() == 3 {
        if let Value::Symbol(key) = items[1] {
            law_evaluation_extends(items[2], env, w, fuel);
            let s = eval_spec(items[2], env, w, fuel);
            if let Ok(v) = s.result {
                lemma_extends_defined(s.world, env, key, v);
                lemma_extends_trans(w, s.world, defined(s.world, env, key, v));
            }
        }
    }
}

/// The same of `let*`.
proof fn lemma_let_extends(items: Seq<Value>, env: nat, w: World, fuel: nat)
    requires
        wf_scopes(w.scopes),
        env < w.scopes.len(),
    ensures
        extends(w, let_spec(items, env, w, fuel).world),
    decreases fuel, 2nat, 0nat,
{
    if items.len() == 3 {
        if let Some(b) = binding_forms(items[1]) {
            if b.len() % 2 == 0 {
                let scope = w.scopes.len();
                let child = Scope { vars: Map::empty(), outer: Some(env) };
                let w1 = pushed(w, child);
                lemma_extends_pushed(w, child);
                lemma_bindings_extend(b, b.len() / 2, scope, w1, fuel);
                let r = let_bindings(b, b.len() / 2, scope, w1, fuel);
                lemma_extends_trans(w, w1, r.world);
                if r.result is Ok {
                    law_evaluation_extends(items[2], scope, r.world, fuel);
                    lemma_extends_trans(w, r.world, eval_spec(items[2], scope, r.world, fuel).world);
                }
            }
        }
    }
}

/// The same of `do`.
proof fn lemma_do_extends(items: Seq<Value>, env: nat, w: World, fuel: nat)
    requires
        wf_scopes(w.scopes),
        env < w.scopes.len(),
    ensures
        extends(w, do_spec(items, env, w, fuel).world),
    decreases fuel, 2nat, 0nat,
{
    if items.len() >= 2 {
        lemma_seq_extends(items.skip(1), env, w, fuel);
    }
}

/// The same of `if`.
proof fn lemma_if_extends(items: Seq<Value>, env: nat, w: World, fuel: nat)
    requires
        wf_scopes(w.scopes),
        env < w.scopes.len(),
    ensures
        extends(w, if_spec(items, env, w, fuel).world),
    decreases fuel, 2nat, 0nat,
{
    if items.len() == 3 || items.len() == 4 {
        law_evaluation_extends(items[1], env, w, fuel);
        let c = eval_spec(items[1], env, w, fuel);
        if let Ok(v) = c.result {
            law_evaluation_extends(items[2], env, c.world, fuel);
            lemma_extends_trans(w, c.world, eval_spec(items[2], env, c.world, fuel).world);
            if items.len() == 4 {
                law_evaluation_extends(items[3], env, c.world, fuel);
                lemma_extends_trans(w, c.world, eval_spec(items[3], env, c.world, fuel).world);
            }
        }
    }
}

} // verus!
