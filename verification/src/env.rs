use crate::text::same_text;
use crate::types::{names_of, opt_value, values_of, MalType, Value};
use vstd::prelude::*;
use vstd::string::StringExecFns;

verus! {

/// A scope as a mathematical value: its own bindings, and the handle of the
/// scope that encloses it.
pub struct Scope {
    pub vars: Map<Seq<char>, Value>,
    pub outer: Option<nat>,
}

/// The state that evaluation reads and changes: the scopes made so far, each
/// known by its position, the lines that were printed and the lines of the
/// diagnostic trace.
pub struct World {
    pub scopes: Seq<Scope>,
    pub output: Seq<Seq<char>>,
    pub trace: Seq<Seq<char>>,
}

/// Every scope was made after the scope that encloses it.
pub open spec fn wf_scopes(scopes: Seq<Scope>) -> bool {
    forall|i: int| 0 <= i < scopes.len() ==> ((#[trigger] scopes[i]).outer matches Some(o) ==> o < i)
}

/// The world after `key` was bound to `v` in scope `env`.
pub open spec fn defined(w: World, env: nat, key: Seq<char>, v: Value) -> World {
    World {
        scopes: w.scopes.update(
            env as int,
            Scope {
                vars: w.scopes[env as int].vars.insert(key, v),
                outer: w.scopes[env as int].outer,
            },
        ),
        ..w
    }
}

/// The world with one more scope, whose handle is the number of scopes
/// before.
pub open spec fn pushed(w: World, scope: Scope) -> World {
    World { scopes: w.scopes.push(scope), ..w }
}

/// The world after a line was printed.
pub open spec fn emitted(w: World, line: Seq<char>) -> World {
    World { output: w.output.push(line), ..w }
}

/// The world after a line was added to the diagnostic trace.
pub open spec fn logged(w: World, line: Seq<char>) -> World {
    World { trace: w.trace.push(line), ..w }
}

/// What `key` is bound to in scope `env` or, failing that, in the nearest
/// enclosing scope that binds it.
pub open spec fn lookup(scopes: Seq<Scope>, env: nat, key: Seq<char>) -> Option<Value>
    decreases env,
{
    if env >= scopes.len() {
        None
    } else if scopes[env as int].vars.contains_key(key) {
        Some(scopes[env as int].vars[key])
    } else {
        match scopes[env as int].outer {
            Some(o) => if o < env {
                lookup(scopes, o, key)
            } else {
                None
            },
            None => None,
        }
    }
}

/// What `key` is bound to in `scope` or, failing that, in the scopes that
/// enclose it.
pub open spec fn lookup_from(scope: Scope, scopes: Seq<Scope>, key: Seq<char>) -> Option<Value> {
    if scope.vars.contains_key(key) {
        Some(scope.vars[key])
    } else {
        match scope.outer {
            Some(o) => lookup(scopes, o, key),
            None => None,
        }
    }
}

/// The handle of the nearest scope, from `env` outwards, that binds `key`.
pub open spec fn find(scopes: Seq<Scope>, env: nat, key: Seq<char>) -> Option<nat>
    decreases env,
{
    if env >= scopes.len() {
        None
    } else if scopes[env as int].vars.contains_key(key) {
        Some(env)
    } else {
        match scopes[env as int].outer {
            Some(o) => if o < env {
                find(scopes, o, key)
            } else {
                None
            },
            None => None,
        }
    }
}

/// The nearest scope, from `scope` outwards, that binds `key`.
pub open spec fn find_from(scope: Scope, scopes: Seq<Scope>, key: Seq<char>) -> Option<Scope> {
    if scope.vars.contains_key(key) {
        Some(scope)
    } else {
        match scope.outer {
            Some(o) => match find(scopes, o, key) {
                Some(h) => Some(scopes[h as int]),
                None => None,
            },
            None => None,
        }
    }
}

/// The bindings that a list of names and expressions stands for: a later
/// entry overrides an earlier one of the same name.
pub open spec fn bindings(data: Seq<(String, MalType)>) -> Map<Seq<char>, Value>
    decreases data.len(),
{
    if data.len() == 0 {
        Map::empty()
    } else {
        bindings(data.drop_last()).insert(data.last().0@, data.last().1@)
    }
}

/// The first `n` names bound to the first `n` values, in order.
pub open spec fn zipped(names: Seq<Seq<char>>, values: Seq<Value>, n: nat) -> Map<
    Seq<char>,
    Value,
>
    decreases n,
{
    if n == 0 {
        Map::empty()
    } else {
        zipped(names, values, (n - 1) as nat).insert(names[n - 1], values[n - 1])
    }
}

/// The names bound to the values position by position, as far as both go.
pub open spec fn bound(names: Seq<Seq<char>>, values: Seq<Value>) -> Map<Seq<char>, Value> {
    zipped(
        names,
        values,
        if names.len() <= values.len() {
            names.len()
        } else {
            values.len()
        },
    )
}

/// A handle as a natural number.
pub open spec fn handle_of(h: Option<usize>) -> Option<nat> {
    match h {
        Some(o) => Some(o as nat),
        None => None,
    }
}

/// A name that no entry has is not bound.
proof fn lemma_bindings_absent(data: Seq<(String, MalType)>, key: Seq<char>)
    requires
        forall|j: int| 0 <= j < data.len() ==> (#[trigger] data[j]).0@ != key,
    ensures
        !bindings(data).contains_key(key),
    decreases data.len(),
{
    if data.len() > 0 {
        lemma_bindings_absent(data.drop_last(), key);
    }
}

/// A name is bound to the value of the last entry that has it.
proof fn lemma_bindings_last(data: Seq<(String, MalType)>, i: int, key: Seq<char>)
    requires
        0 <= i < data.len(),
        data[i].0@ == key,
        forall|j: int| i < j < data.len() ==> (#[trigger] data[j]).0@ != key,
    ensures
        bindings(data).contains_key(key),
        bindings(data)[key] == data[i].1@,
    decreases data.len(),
{
    if i < data.len() - 1 {
        lemma_bindings_last(data.drop_last(), i, key);
    }
}

/// Replacing the last entry of a name binds the name anew and nothing else.
proof fn lemma_bindings_update(
    data: Seq<(String, MalType)>,
    i: int,
    entry: (String, MalType),
)
    requires
        0 <= i < data.len(),
        data[i].0@ == entry.0@,
        forall|j: int| i < j < data.len() ==> (#[trigger] data[j]).0@ != entry.0@,
    ensures
        bindings(data.update(i, entry)) == bindings(data).insert(entry.0@, entry.1@),
    decreases data.len(),
{
    let updated = data.update(i, entry);
    if i == data.len() - 1 {
        assert(updated.drop_last() =~= data.drop_last());
        assert(bindings(updated) =~= bindings(data).insert(entry.0@, entry.1@));
    } else {
        lemma_bindings_update(data.drop_last(), i, entry);
        assert(updated.drop_last() =~= data.drop_last().update(i, entry));
        assert(updated.last() == data.last());
        assert(data.last().0@ != entry.0@);
        assert(bindings(updated) =~= bindings(data).insert(entry.0@, entry.1@));
    }
}

/// One scope: its own bindings and the handle of the scope that encloses it.
pub struct Env {
    data: Vec<(String, MalType)>,
    outer: Option<usize>,
}

impl View for Env {
    type V = Scope;

    closed spec fn view(&self) -> Scope {
        Scope { vars: bindings(self.data@), outer: handle_of(self.outer) }
    }
}

impl Env {
    /// The position of the last entry for `key`, if there is one.
    fn position(&self, key: &str) -> (r: Option<usize>)
        ensures
            match r {
                Some(i) => i < self.data.len() && self.data[i as int].0@ == key@ && forall|j: int|
                    i < j < self.data.len() ==> (#[trigger] self.data[j]).0@ != key@,
                None => forall|j: int|
                    0 <= j < self.data.len() ==> (#[trigger] self.data[j]).0@ != key@,
            },
    {
        let mut i: usize = self.data.len();
        while i > 0
            invariant
                i <= self.data.len(),
                forall|j: int| i <= j < self.data.len() ==> (#[trigger] self.data[j]).0@ != key@,
            decreases i,
        {
            i -= 1;
            if same_text(self.data[i].0.as_str(), key) {
                return Some(i);
            }
        }
        None
    }

    /// What this scope itself binds `key` to.
    fn own(&self, key: &str) -> (r: Option<&MalType>)
        ensures
            match r {
                Some(v) => self@.vars.contains_key(key@) && self@.vars[key@] == v@,
                None => !self@.vars.contains_key(key@),
            },
    {
        match self.position(key) {
            Some(i) => {
                proof {
                    lemma_bindings_last(self.data@, i as int, key@);
                }
                Some(&self.data[i].1)
            },
            None => {
                proof {
                    lemma_bindings_absent(self.data@, key@);
                }
                None
            },
        }
    }

    /// The handle of the enclosing scope.
    pub fn outer(&self) -> (r: Option<usize>)
        ensures
            handle_of(r) == self@.outer,
    {
        self.outer
    }

    /// A scope without bindings, enclosed by `outer`.
    pub fn new(outer: Option<usize>) -> (e: Env)
        ensures
            e@ == (Scope { vars: Map::empty(), outer: handle_of(outer) }),
    {
        Env { data: Vec::new(), outer }
    }

    /// A scope enclosed by `outer` that binds `binds` to `exprs` position by
    /// position, as far as both go.
    pub fn with_bindings(outer: Option<usize>, binds: &[String], exprs: &[MalType]) -> (r: Result<
        Env,
        String,
    >)
        ensures
            r matches Ok(e) && e@ == (Scope {
                vars: bound(names_of(binds@), values_of(exprs@)),
                outer: handle_of(outer),
            }),
    {
        let mut env = Env::new(outer);
        let n = if binds.len() <= exprs.len() {
            binds.len()
        } else {
            exprs.len()
        };
        let mut i: usize = 0;
        while i < n
            invariant
                i <= n,
                n <= binds.len(),
                n <= exprs.len(),
                env@ == (Scope {
                    vars: zipped(names_of(binds@), values_of(exprs@), i as nat),
                    outer: handle_of(outer),
                }),
            decreases n - i,
        {
            env.set(binds[i].as_str(), exprs[i].clone());
            i += 1;
        }
        Ok(env)
    }

    /// Binds `key` to `val` in this scope, whatever it was bound to before, and
    /// returns the value.
    pub fn set(&mut self, key: &str, val: MalType) -> (r: MalType)
        ensures
            final(self)@ == (Scope {
                vars: old(self)@.vars.insert(key@, val@),
                outer: old(self)@.outer,
            }),
            r@ == val@,
    {
        let stored = val.clone();
        let name = String::from_str(key);
        match self.position(key) {
            Some(i) => {
                proof {
                    lemma_bindings_update(self.data@, i as int, (name, stored));
                }
                self.data.set(i, (name, stored));
            },
            None => {
                assert(self.data@.push((name, stored)).drop_last() =~= self.data@);
                self.data.push((name, stored));
            },
        }
        val
    }
}


/// Entries with the same names and values stand for the same bindings.
proof fn lemma_bindings_same(a: Seq<(String, MalType)>, b: Seq<(String, MalType)>)
    requires
        a.len() == b.len(),
        forall|j: int| 0 <= j < a.len() ==> (#[trigger] a[j]).0@ == b[j].0@ && a[j].1@ == b[j].1@,
    ensures
        bindings(a) == bindings(b),
    decreases a.len(),
{
    if a.len() > 0 {
        lemma_bindings_same(a.drop_last(), b.drop_last());
    }
}

impl Clone for Env {
    fn clone(&self) -> (r: Self)
        ensures
            r@ == self@,
    {
        let mut data: Vec<(String, MalType)> = Vec::new();
        let mut i: usize = 0;
        while i < self.data.len()
            invariant
                i <= self.data.len(),
                data.len() == i,
                forall|j: int|
                    0 <= j < i ==> (#[trigger] data[j]).0@ == self.data[j].0@ && data[j].1@
                        == self.data[j].1@,
            decreases self.data.len() - i,
        {
            let name = self.data[i].0.clone();
            let value = self.data[i].1.clone();
            data.push((name, value));
            i += 1;
        }
        proof {
            lemma_bindings_same(data@, self.data@);
        }
        Env { data, outer: self.outer }
    }
}

/// The texts of a sequence of strings.
pub open spec fn lines_of(lines: Seq<String>) -> Seq<Seq<char>> {
    Seq::new(lines.len(), |i: int| lines[i]@)
}

/// The scopes of a sequence of environments.
pub open spec fn scopes_of(envs: Seq<Env>) -> Seq<Scope> {
    Seq::new(envs.len(), |i: int| envs[i]@)
}

/// The state of an interpreter: the scopes made so far, each known by its
/// handle, the lines that were printed and the lines of the diagnostic trace.
pub struct Runtime {
    envs: Vec<Env>,
    output: Vec<String>,
    trace: Vec<String>,
}

impl View for Runtime {
    type V = World;

    closed spec fn view(&self) -> World {
        World {
            scopes: scopes_of(self.envs@),
            output: lines_of(self.output@),
            trace: lines_of(self.trace@),
        }
    }
}

impl Runtime {
    /// Every scope was made after the scope that encloses it.
    pub open spec fn wf(&self) -> bool {
        wf_scopes(self@.scopes)
    }

    /// A state without scopes and without lines.
    pub fn new() -> (rt: Runtime)
        ensures
            rt@ == (World { scopes: Seq::empty(), output: Seq::empty(), trace: Seq::empty() }),
            rt.wf(),
    {
        let rt = Runtime { envs: Vec::new(), output: Vec::new(), trace: Vec::new() };
        assert(rt@.scopes =~= Seq::<Scope>::empty());
        assert(rt@.output =~= Seq::<Seq<char>>::empty());
        assert(rt@.trace =~= Seq::<Seq<char>>::empty());
        rt
    }

    /// The number of scopes: the handles below it are the valid ones.
    pub fn len(&self) -> (n: usize)
        ensures
            n == self@.scopes.len(),
    {
        self.envs.len()
    }

    /// Adds a scope and returns its handle.
    pub fn push_scope(&mut self, env: Env) -> (h: usize)
        requires
            old(self).wf(),
            env@.outer matches Some(o) ==> o < old(self)@.scopes.len(),
        ensures
            h == old(self)@.scopes.len(),
            final(self)@ == pushed(old(self)@, env@),
            final(self).wf(),
    {
        let h = self.envs.len();
        self.envs.push(env);
        assert(self@.scopes =~= old(self)@.scopes.push(env@));
        h
    }

    /// What `key` is bound to, seen from scope `env`.
    pub fn lookup(&self, env: usize, key: &str) -> (r: Option<MalType>)
        requires
            self.wf(),
        ensures
            opt_value(r) == lookup(self@.scopes, env as nat, key@),
    {
        if env >= self.envs.len() {
            return None;
        }
        let r = self.envs[env].get(key, self);
        proof {
            let scopes = self@.scopes;
            assert(scopes[env as int] == self.envs[env as int]@);
            assert(scopes[env as int].outer matches Some(o) ==> o < env);
        }
        r
    }

    /// Binds `key` to `val` in scope `env` and returns the value.
    pub fn define(&mut self, env: usize, key: &str, val: MalType) -> (r: MalType)
        requires
            old(self).wf(),
            env < old(self)@.scopes.len(),
        ensures
            final(self)@ == defined(old(self)@, env as nat, key@, val@),
            final(self).wf(),
            r@ == val@,
    {
        let r = self.envs[env].set(key, val);
        proof {
            let before = old(self)@.scopes;
            let after = self@.scopes;
            assert(after =~= before.update(env as int, self.envs[env as int]@));
            assert forall|i: int| 0 <= i < after.len() implies ((#[trigger] after[i]).outer matches Some(
                o,
            ) ==> o < i) by {
                assert(after[i].outer == before[i].outer);
            }
        }
        r
    }

    /// Adds a printed line.
    pub fn emit(&mut self, line: String)
        ensures
            final(self)@ == emitted(old(self)@, line@),
    {
        self.output.push(line);
        assert(self@.output =~= old(self)@.output.push(line@));
    }

    /// Adds a line to the diagnostic trace.
    pub fn log(&mut self, line: String)
        ensures
            final(self)@ == logged(old(self)@, line@),
    {
        self.trace.push(line);
        assert(self@.trace =~= old(self)@.trace.push(line@));
    }

    /// Hands out the printed lines and leaves none behind.
    pub fn take_output(&mut self) -> (lines: Vec<String>)
        ensures
            lines_of(lines@) == old(self)@.output,
            final(self)@ == (World { output: Seq::empty(), ..old(self)@ }),
    {
        let mut lines: Vec<String> = Vec::new();
        std::mem::swap(&mut lines, &mut self.output);
        assert(self@.output =~= Seq::<Seq<char>>::empty());
        lines
    }

    /// Hands out the lines of the trace and leaves none behind.
    pub fn take_trace(&mut self) -> (lines: Vec<String>)
        ensures
            lines_of(lines@) == old(self)@.trace,
            final(self)@ == (World { trace: Seq::empty(), ..old(self)@ }),
    {
        let mut lines: Vec<String> = Vec::new();
        std::mem::swap(&mut lines, &mut self.trace);
        assert(self@.trace =~= Seq::<Seq<char>>::empty());
        lines
    }
}

impl Env {
    /// What `key` is bound to in this scope or, failing that, in the scopes
    /// of `rt` that enclose it.
    pub fn get(&self, key: &str, rt: &Runtime) -> (r: Option<MalType>)
        requires
            rt.wf(),
        ensures
            opt_value(r) == lookup_from(self@, rt@.scopes, key@),
    {
        if let Some(v) = self.own(key) {
            return Some(v.clone());
        }
        let ghost scopes = rt@.scopes;
        let mut cur = self.outer;
        loop
            invariant
                rt.wf(),
                scopes == rt@.scopes,
                lookup_from(self@, scopes, key@) == match cur {
                    Some(o) => lookup(scopes, o as nat, key@),
                    None => None,
                },
            decreases
                    match cur {
                        Some(o) => o + 1,
                        None => 0,
                    },
        {
            let o = match cur {
                None => {
                    return None;
                },
                Some(o) => o,
            };
            if o >= rt.envs.len() {
                return None;
            }
            let env = &rt.envs[o];
            assert(scopes[o as int] == env@);
            if let Some(v) = env.own(key) {
                return Some(v.clone());
            }
            cur = env.outer;
        }
    }

    /// A copy of the nearest scope, from this one outwards, that binds `key`.
    pub fn find(&self, key: &str, rt: &Runtime) -> (r: Option<Env>)
        requires
            rt.wf(),
        ensures
            match r {
                Some(e) => find_from(self@, rt@.scopes, key@) == Some(e@),
                None => find_from(self@, rt@.scopes, key@) is None,
            },
    {
        if self.own(key).is_some() {
            return Some(self.clone());
        }
        let ghost scopes = rt@.scopes;
        let mut cur = self.outer;
        loop
            invariant
                rt.wf(),
                scopes == rt@.scopes,
                !self@.vars.contains_key(key@),
                match cur {
                    Some(o) => self@.outer is Some && find(scopes, self@.outer->0, key@) == find(
                        scopes,
                        o as nat,
                        key@,
                    ),
                    None => find_from(self@, scopes, key@) is None,
                },
            decreases
                    match cur {
                        Some(o) => o + 1,
                        None => 0,
                    },
        {
            let o = match cur {
                None => {
                    return None;
                },
                Some(o) => o,
            };
            if o >= rt.envs.len() {
                return None;
            }
            let env = &rt.envs[o];
            assert(scopes[o as int] == env@);
            if env.own(key).is_some() {
                return Some(env.clone());
            }
            cur = env.outer;
        }
    }
}

} // verus!
