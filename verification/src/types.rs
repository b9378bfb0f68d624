use vstd::prelude::*;

verus! {

/// The mathematical value that a [`MalType`] stands for.
pub enum Value {
    Nil,
    Bool(bool),
    Number(int),
    Symbol(Seq<char>),
    Str(Seq<char>),
    Keyword(Seq<char>),
    List(Seq<Value>),
    Vector(Seq<Value>),
    Dict(Seq<(Value, Value)>),
    Function { params: Seq<Seq<char>>, body: Box<Value>, env: nat, variadic: bool },
}

/// An expression of the language, which is also what evaluation returns.
///
/// A `Function` is a closure: `env` is the handle of the scope that was
/// current when the closure was made.
#[derive(Debug)]
pub enum MalType {
    Nil,
    Bool(bool),
    Number(i64),
    Symbol(String),
    String(String),
    Keyword(String),
    List(Vec<MalType>),
    Vector(Vec<MalType>),
    Dict(Vec<(MalType, MalType)>),
    Function { params: Vec<String>, body: Box<MalType>, env: usize, variadic: bool },
}

/// The value of an expression, by recursion on its structure.
pub open spec fn value_of(m: MalType) -> Value
    decreases m,
{
    match m {
        MalType::Nil => Value::Nil,
        MalType::Bool(b) => Value::Bool(b),
        MalType::Number(n) => Value::Number(n as int),
        MalType::Symbol(s) => Value::Symbol(s@),
        MalType::String(s) => Value::Str(s@),
        MalType::Keyword(s) => Value::Keyword(s@),
        MalType::List(items) => Value::List(
            Seq::new(
                items.len() as nat,
                |i: int| if 0 <= i < items.len() { value_of(items[i]) } else { Value::Nil },
            ),
        ),
        MalType::Vector(items) => Value::Vector(
            Seq::new(
                items.len() as nat,
                |i: int| if 0 <= i < items.len() { value_of(items[i]) } else { Value::Nil },
            ),
        ),
        MalType::Dict(pairs) => Value::Dict(
            Seq::new(
                pairs.len() as nat,
                |i: int|
                    if 0 <= i < pairs.len() {
                        (value_of(pairs[i].0), value_of(pairs[i].1))
                    } else {
                        (Value::Nil, Value::Nil)
                    },
            ),
        ),
        MalType::Function { params, body, env, variadic } => Value::Function {
            params: names_of(params@),
            body: Box::new(value_of(*body)),
            env: env as nat,
            variadic,
        },
    }
}

impl View for MalType {
    type V = Value;

    open spec fn view(&self) -> Value {
        value_of(*self)
    }
}

/// The values of a sequence of expressions, item by item.
pub open spec fn values_of(items: Seq<MalType>) -> Seq<Value> {
    Seq::new(items.len(), |i: int| value_of(items[i]))
}

/// The values of a sequence of key and value expressions, pair by pair.
pub open spec fn pairs_of(pairs: Seq<(MalType, MalType)>) -> Seq<(Value, Value)> {
    Seq::new(pairs.len(), |i: int| (value_of(pairs[i].0), value_of(pairs[i].1)))
}

/// The texts of a sequence of strings.
pub open spec fn names_of(names: Seq<String>) -> Seq<Seq<char>> {
    Seq::new(names.len(), |i: int| names[i]@)
}

/// The value of an optional expression.
pub open spec fn opt_value(o: Option<MalType>) -> Option<Value> {
    match o {
        Some(m) => Some(m@),
        None => None,
    }
}

/// The value of a list is the list of the values of its items.
pub broadcast proof fn lemma_list_value(items: Vec<MalType>)
    ensures
        #[trigger] value_of(MalType::List(items)) == Value::List(values_of(items@)),
{
    assert(value_of(MalType::List(items))->List_0 =~= values_of(items@));
}

/// The value of a vector is the vector of the values of its items.
pub broadcast proof fn lemma_vector_value(items: Vec<MalType>)
    ensures
        #[trigger] value_of(MalType::Vector(items)) == Value::Vector(values_of(items@)),
{
    assert(value_of(MalType::Vector(items))->Vector_0 =~= values_of(items@));
}

/// The value of a map is the map of the values of its keys and values.
pub broadcast proof fn lemma_dict_value(pairs: Vec<(MalType, MalType)>)
    ensures
        #[trigger] value_of(MalType::Dict(pairs)) == Value::Dict(pairs_of(pairs@)),
{
    assert(value_of(MalType::Dict(pairs))->Dict_0 =~= pairs_of(pairs@));
}

pub broadcast group group_value_views {
    lemma_list_value,
    lemma_vector_value,
    lemma_dict_value,
}

/// A copy of a vector of strings, with the same texts.
pub fn clone_names(names: &Vec<String>) -> (r: Vec<String>)
    ensures
        names_of(r@) == names_of(names@),
{
    let mut r: Vec<String> = Vec::new();
    let mut i: usize = 0;
    while i < names.len()
        invariant
            i <= names.len(),
            r.len() == i,
            forall|j: int| 0 <= j < i ==> r[j]@ == names[j]@,
        decreases names.len() - i,
    {
        r.push(names[i].clone());
        i += 1;
    }
    assert(names_of(r@) =~= names_of(names@));
    r
}

/// A copy of a vector of expressions, with the same values.
pub fn clone_items(items: &Vec<MalType>) -> (r: Vec<MalType>)
    ensures
        values_of(r@) == values_of(items@),
    decreases items,
{
    let mut r: Vec<MalType> = Vec::new();
    let mut i: usize = 0;
    while i < items.len()
        invariant
            i <= items.len(),
            r.len() == i,
            forall|j: int| 0 <= j < i ==> r[j]@ == items[j]@,
        decreases items.len() - i,
    {
        r.push(items[i].clone());
        i += 1;
    }
    assert(values_of(r@) =~= values_of(items@));
    r
}

/// A copy of a vector of key and value expressions, with the same values.
pub fn clone_pairs(pairs: &Vec<(MalType, MalType)>) -> (r: Vec<(MalType, MalType)>)
    ensures
        pairs_of(r@) == pairs_of(pairs@),
    decreases pairs,
{
    let mut r: Vec<(MalType, MalType)> = Vec::new();
    let mut i: usize = 0;
    while i < pairs.len()
        invariant
            i <= pairs.len(),
            r.len() == i,
            forall|j: int| 0 <= j < i ==> r[j].0@ == pairs[j].0@ && r[j].1@ == pairs[j].1@,
        decreases pairs.len() - i,
    {
        let k = pairs[i].0.clone();
        let v = pairs[i].1.clone();
        r.push((k, v));
        i += 1;
    }
    assert(pairs_of(r@) =~= pairs_of(pairs@));
    r
}

impl Clone for MalType {
    fn clone(&self) -> (r: Self)
        ensures
            r@ == self@,
        decreases self,
    {
        broadcast use group_value_views;

        match self {
            MalType::Nil => MalType::Nil,
            MalType::Bool(b) => MalType::Bool(*b),
            MalType::Number(n) => MalType::Number(*n),
            MalType::Symbol(s) => MalType::Symbol(s.clone()),
            MalType::String(s) => MalType::String(s.clone()),
            MalType::Keyword(s) => MalType::Keyword(s.clone()),
            MalType::List(items) => MalType::List(clone_items(items)),
            MalType::Vector(items) => MalType::Vector(clone_items(items)),
            MalType::Dict(pairs) => MalType::Dict(clone_pairs(pairs)),
            MalType::Function { params, body, env, variadic } => MalType::Function {
                params: clone_names(params),
                body: Box::new((&**body).clone()),
                env: *env,
                variadic: *variadic,
            },
        }
    }
}


/// Structural equality of values.
///
/// A list and a vector with equal items are equal. Two maps are equal when
/// their pairs can be matched one to one with equal keys and equal values.
/// A function is equal to nothing, not even to itself.
pub open spec fn values_equal(a: Value, b: Value) -> bool
    decreases a,
{
    match a {
        Value::Nil => b is Nil,
        Value::Bool(x) => b == Value::Bool(x),
        Value::Number(x) => b == Value::Number(x),
        Value::Symbol(x) => b == Value::Symbol(x),
        Value::Str(x) => b == Value::Str(x),
        Value::Keyword(x) => b == Value::Keyword(x),
        Value::List(x) => match b {
            Value::List(y) => seqs_equal(x, y),
            Value::Vector(y) => seqs_equal(x, y),
            _ => false,
        },
        Value::Vector(x) => match b {
            Value::List(y) => seqs_equal(x, y),
            Value::Vector(y) => seqs_equal(x, y),
            _ => false,
        },
        Value::Dict(x) => match b {
            Value::Dict(y) => dicts_equal(x, y),
            _ => false,
        },
        Value::Function { .. } => false,
    }
}

/// Two sequences of values are equal item by item.
pub open spec fn seqs_equal(x: Seq<Value>, y: Seq<Value>) -> bool
    decreases x,
{
    &&& x.len() == y.len()
    &&& forall|i: int| 0 <= i < x.len() ==> values_equal(#[trigger] x[i], y[i])
}

/// Two pairs have equal keys and equal values.
pub open spec fn pair_equal(p: (Value, Value), q: (Value, Value)) -> bool
    decreases p, 0nat,
{
    values_equal(p.0, q.0) && values_equal(p.1, q.1)
}

/// The index of the first pair of `y`, from `from` on, that equals `p`;
/// the length of `y` if there is none.
pub open spec fn first_match(p: (Value, Value), y: Seq<(Value, Value)>, from: nat) -> nat
    decreases p, 1 + y.len() - from,
{
    if from >= y.len() {
        y.len()
    } else if pair_equal(p, y[from as int]) {
        from
    } else {
        first_match(p, y, from + 1)
    }
}

/// The pairs of `x` and of `y` can be matched one to one: the first pair of
/// `x` with the first pair of `y` that equals it, and so on with what is left.
pub open spec fn dicts_equal(x: Seq<(Value, Value)>, y: Seq<(Value, Value)>) -> bool
    decreases x,
{
    if x.len() == 0 {
        y.len() == 0
    } else {
        let j = first_match(x[0], y, 0);
        j < y.len() && dicts_equal(x.drop_first(), y.remove(j as int))
    }
}


/// The pairs of `y` at the positions that `rem` lists.
pub open spec fn picked(y: Seq<(Value, Value)>, rem: Seq<usize>) -> Seq<(Value, Value)> {
    Seq::new(rem.len(), |k: int| y[rem[k] as int])
}

/// Whether two vectors of expressions are equal item by item.
pub fn equal_items(x: &Vec<MalType>, y: &Vec<MalType>) -> (r: bool)
    ensures
        r == seqs_equal(values_of(x@), values_of(y@)),
    decreases x,
{
    if x.len() != y.len() {
        return false;
    }
    let mut i: usize = 0;
    while i < x.len()
        invariant
            i <= x.len(),
            x.len() == y.len(),
            forall|j: int| 0 <= j < i ==> values_equal(#[trigger] values_of(x@)[j], values_of(y@)[j]),
        decreases x.len() - i,
    {
        if !equal_values(&x[i], &y[i]) {
            assert(!values_equal(values_of(x@)[i as int], values_of(y@)[i as int]));
            return false;
        }
        i += 1;
    }
    true
}

/// Whether the pairs of two map literals can be matched one to one.
pub fn equal_pairs(x: &Vec<(MalType, MalType)>, y: &Vec<(MalType, MalType)>) -> (r: bool)
    ensures
        r == dicts_equal(pairs_of(x@), pairs_of(y@)),
    decreases x,
{
    let ghost xs = pairs_of(x@);
    let ghost ys = pairs_of(y@);
    let mut rem: Vec<usize> = Vec::new();
    let mut n: usize = 0;
    while n < y.len()
        invariant
            n <= y.len(),
            rem.len() == n,
            forall|k: int| 0 <= k < n ==> rem[k] == k,
        decreases y.len() - n,
    {
        rem.push(n);
        n += 1;
    }
    assert(picked(ys, rem@) =~= ys);
    assert(xs.skip(0) =~= xs);
    let mut i: usize = 0;
    while i < x.len()
        invariant
            i <= x.len(),
            xs == pairs_of(x@),
            ys == pairs_of(y@),
            forall|k: int| 0 <= k < rem.len() ==> rem[k] < y.len(),
            dicts_equal(xs, ys) == dicts_equal(xs.skip(i as int), picked(ys, rem@)),
        decreases x.len() - i,
    {
        let ghost left = picked(ys, rem@);
        let mut k: usize = 0;
        let mut found = false;
        while k < rem.len() && !found
            invariant
                i < x.len(),
                k <= rem.len(),
                xs == pairs_of(x@),
                ys == pairs_of(y@),
                left == picked(ys, rem@),
                forall|k: int| 0 <= k < rem.len() ==> rem[k] < y.len(),
                !found ==> first_match(xs[i as int], left, 0) == first_match(xs[i as int], left, k as nat),
                found ==> k < rem.len() && first_match(xs[i as int], left, 0) == k,
            decreases rem.len() - k + if found { 0int } else { 1int },
        {
            let q = &y[rem[k]];
            assert(left[k as int] == (q.0@, q.1@));
            assert(xs[i as int] == (x[i as int].0@, x[i as int].1@));
            let same = equal_values(&x[i].0, &q.0) && equal_values(&x[i].1, &q.1);
            assert(same == pair_equal(xs[i as int], left[k as int]));
            assert(first_match(xs[i as int], left, k as nat) == if same {
                k as nat
            } else {
                first_match(xs[i as int], left, (k + 1) as nat)
            });
            if same {
                found = true;
            } else {
                k += 1;
            }
        }
        assert(xs.skip(i as int)[0] == xs[i as int]);
        assert(xs.skip(i as int).drop_first() =~= xs.skip(i as int + 1));
        if !found {
            return false;
        }
        rem.remove(k);
        assert(picked(ys, rem@) =~= left.remove(k as int));
        i += 1;
    }
    rem.len() == 0
}

/// Structural equality of two expressions.
pub fn equal_values(a: &MalType, b: &MalType) -> (r: bool)
    ensures
        r == values_equal(a@, b@),
    decreases a,
{
    broadcast use group_value_views;

    match a {
        MalType::Nil => match b {
            MalType::Nil => true,
            _ => false,
        },
        MalType::Bool(x) => match b {
            MalType::Bool(y) => *x == *y,
            _ => false,
        },
        MalType::Number(x) => match b {
            MalType::Number(y) => *x == *y,
            _ => false,
        },
        MalType::Symbol(x) => match b {
            MalType::Symbol(y) => *x == *y,
            _ => false,
        },
        MalType::String(x) => match b {
            MalType::String(y) => *x == *y,
            _ => false,
        },
        MalType::Keyword(x) => match b {
            MalType::Keyword(y) => *x == *y,
            _ => false,
        },
        MalType::List(x) => match b {
            MalType::List(y) => equal_items(x, y),
            MalType::Vector(y) => equal_items(x, y),
            _ => false,
        },
        MalType::Vector(x) => match b {
            MalType::List(y) => equal_items(x, y),
            MalType::Vector(y) => equal_items(x, y),
            _ => false,
        },
        MalType::Dict(x) => match b {
            MalType::Dict(y) => equal_pairs(x, y),
            _ => false,
        },
        MalType::Function { .. } => false,
    }
}

impl PartialEq for MalType {
    fn eq(&self, other: &Self) -> (r: bool) {
        equal_values(self, other)
    }
}

impl vstd::std_specs::cmp::PartialEqSpecImpl for MalType {
    open spec fn obeys_eq_spec() -> bool {
        true
    }

    open spec fn eq_spec(&self, other: &Self) -> bool {
        values_equal(self@, other@)
    }
}

} // verus!
