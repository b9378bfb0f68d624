use mal::env::{Env, Runtime};
use mal::types::MalType;

fn number(n: i64) -> MalType {
    MalType::Number(n)
}

#[test]
fn a_new_scope_binds_nothing() {
    let rt = Runtime::new();
    let env = Env::new(None);
    assert_eq!(env.get("x", &rt), None);
    assert_eq!(env.outer(), None);
    assert_eq!(Env::new(Some(3)).outer(), Some(3));
}

#[test]
fn set_returns_the_value_and_get_finds_it() {
    let rt = Runtime::new();
    let mut env = Env::new(None);
    assert_eq!(env.set("x", number(1)), number(1));
    assert_eq!(env.get("x", &rt), Some(number(1)));
    assert_eq!(env.get("y", &rt), None);
    assert_eq!(env.set("x", number(2)), number(2));
    assert_eq!(env.get("x", &rt), Some(number(2)));
    assert_eq!(env.set("y", number(3)), number(3));
    assert_eq!(env.get("x", &rt), Some(number(2)));
    assert_eq!(env.get("y", &rt), Some(number(3)));
}

#[test]
fn get_goes_outwards_along_the_chain() {
    let mut rt = Runtime::new();
    let mut root = Env::new(None);
    root.set("a", number(1));
    root.set("b", number(2));
    let root = rt.push_scope(root);
    let mut middle = Env::new(Some(root));
    middle.set("b", number(20));
    let middle = rt.push_scope(middle);
    let mut inner = Env::new(Some(middle));
    inner.set("c", number(300));
    assert_eq!(inner.get("a", &rt), Some(number(1)));
    assert_eq!(inner.get("b", &rt), Some(number(20)));
    assert_eq!(inner.get("c", &rt), Some(number(300)));
    assert_eq!(inner.get("d", &rt), None);
    assert_eq!(rt.lookup(middle, "c"), None);
    assert_eq!(rt.lookup(root, "b"), Some(number(2)));
    assert_eq!(rt.lookup(middle, "b"), Some(number(20)));
    assert_eq!(rt.lookup(7, "a"), None);
}

#[test]
fn set_touches_this_scope_only() {
    let mut rt = Runtime::new();
    let root = rt.push_scope(Env::new(None));
    let child = rt.push_scope(Env::new(Some(root)));
    rt.define(root, "x", number(1));
    assert_eq!(rt.define(child, "x", number(2)), number(2));
    assert_eq!(rt.lookup(child, "x"), Some(number(2)));
    assert_eq!(rt.lookup(root, "x"), Some(number(1)));
    rt.define(root, "y", number(5));
    assert_eq!(rt.lookup(child, "y"), Some(number(5)));
}

#[test]
fn siblings_do_not_see_each_other() {
    let mut rt = Runtime::new();
    let root = rt.push_scope(Env::new(None));
    let left = rt.push_scope(Env::new(Some(root)));
    let right = rt.push_scope(Env::new(Some(root)));
    rt.define(left, "x", number(1));
    assert_eq!(rt.lookup(left, "x"), Some(number(1)));
    assert_eq!(rt.lookup(right, "x"), None);
    assert_eq!(rt.lookup(root, "x"), None);
}

#[test]
fn with_bindings_pairs_names_and_values() {
    let rt = Runtime::new();
    let names = vec!["a".to_string(), "b".to_string(), "a".to_string()];
    let values = vec![number(1), number(2), number(3)];
    let env = Env::with_bindings(Some(4), &names, &values).ok().unwrap();
    assert_eq!(env.get("a", &rt), Some(number(3)));
    assert_eq!(env.get("b", &rt), Some(number(2)));
    assert_eq!(env.outer(), Some(4));
    let short = Env::with_bindings(None, &names, &values[..1]).ok().unwrap();
    assert_eq!(short.get("a", &rt), Some(number(1)));
    assert_eq!(short.get("b", &rt), None);
    let none = Env::with_bindings(None, &names[..0], &values).ok().unwrap();
    assert_eq!(none.get("a", &rt), None);
}

#[test]
fn find_gives_the_nearest_scope_that_binds() {
    let mut rt = Runtime::new();
    let mut root = Env::new(None);
    root.set("a", number(1));
    let root = rt.push_scope(root);
    let mut inner = Env::new(Some(root));
    inner.set("b", number(2));
    let own = inner.find("b", &rt).unwrap();
    assert_eq!(own.get("b", &rt), Some(number(2)));
    assert_eq!(own.outer(), Some(root));
    let outer = inner.find("a", &rt).unwrap();
    assert_eq!(outer.outer(), None);
    assert_eq!(outer.get("b", &rt), None);
    assert_eq!(outer.get("a", &rt), Some(number(1)));
    assert!(inner.find("c", &rt).is_none());
}

#[test]
fn a_copy_of_a_scope_is_its_own() {
    let rt = Runtime::new();
    let mut env = Env::new(Some(2));
    env.set("x", number(1));
    let mut copy = env.clone();
    copy.set("x", number(2));
    assert_eq!(env.get("x", &rt), Some(number(1)));
    assert_eq!(copy.get("x", &rt), Some(number(2)));
    assert_eq!(copy.outer(), Some(2));
}

#[test]
fn the_runtime_keeps_lines() {
    let mut rt = Runtime::new();
    assert_eq!(rt.len(), 0);
    rt.emit("one".to_string());
    rt.emit("two".to_string());
    rt.log("seen".to_string());
    assert_eq!(rt.take_output(), vec!["one", "two"]);
    assert_eq!(rt.take_output(), Vec::<String>::new());
    assert_eq!(rt.take_trace(), vec!["seen"]);
    assert_eq!(rt.take_trace(), Vec::<String>::new());
}
