use crate::types::{dicts_equal, first_match, pair_equal, seqs_equal, values_equal, Value};
use vstd::prelude::*;

verus! {

/// `p` pairs each position of `x` with a position of `y` that holds an equal
/// pair, one to one; `q` leads back from the positions of `y`.
pub open spec fn is_matching(
    x: Seq<(Value, Value)>,
    y: Seq<(Value, Value)>,
    p: Seq<int>,
    q: Seq<int>,
) -> bool {
    &&& x.len() == y.len()
    &&& p.len() == x.len()
    &&& q.len() == y.len()
    &&& forall|i: int| 0 <= i < p.len() ==> 0 <= #[trigger] p[i] < q.len() && q[p[i]] == i
    &&& forall|k: int| 0 <= k < q.len() ==> 0 <= #[trigger] q[k] < p.len() && p[q[k]] == k
    &&& forall|i: int| 0 <= i < p.len() ==> pair_equal(x[i], y[#[trigger] p[i]])
}

/// The pairs of `x` and the pairs of `y` are the same pairs in some
/// correspondence: each pair of one has its own equal pair in the other.
pub open spec fn correspond(x: Seq<(Value, Value)>, y: Seq<(Value, Value)>) -> bool {
    exists|p: Seq<int>, q: Seq<int>| is_matching(x, y, p, q)
}

/// Where the first match is, and that no pair before it matches.
pub proof fn lemma_first_match(pt: (Value, Value), y: Seq<(Value, Value)>, from: nat)
    requires
        from <= y.len(),
    ensures
        from <= first_match(pt, y, from) <= y.len(),
        first_match(pt, y, from) < y.len() ==> pair_equal(pt, y[first_match(pt, y, from) as int]),
        forall|k: int| from <= k < first_match(pt, y, from) ==> !pair_equal(pt, #[trigger] y[k]),
    decreases y.len() - from,
{
    if from < y.len() && !pair_equal(pt, y[from as int]) {
        lemma_first_match(pt, y, from + 1);
    }
}

/// Maps that are equal have equally many pairs.
pub proof fn lemma_equal_lengths(x: Seq<(Value, Value)>, y: Seq<(Value, Value)>)
    requires
        dicts_equal(x, y),
    ensures
        x.len() == y.len(),
    decreases x.len(),
{
    if x.len() > 0 {
        let j = first_match(x[0], y, 0);
        lemma_equal_lengths(x.drop_first(), y.remove(j as int));
    }
}

/// The position in `y` of what stands at position `v` once position `j` is
/// taken out.
pub open spec fn raised(v: int, j: int) -> int {
    if v < j {
        v
    } else {
        v + 1
    }
}

/// The position that `v` has once position `j` is taken out.
pub open spec fn lowered(v: int, j: int) -> int {
    if v < j {
        v
    } else {
        v - 1
    }
}

/// A matching of what is left, and the first pair matched with position
/// `j`, make a matching of the whole.
pub proof fn lemma_matching_grows(
    x: Seq<(Value, Value)>,
    y: Seq<(Value, Value)>,
    j: int,
    p1: Seq<int>,
    q1: Seq<int>,
)
    requires
        x.len() > 0,
        0 <= j < y.len(),
        pair_equal(x[0], y[j]),
        is_matching(x.drop_first(), y.remove(j), p1, q1),
    ensures
        correspond(x, y),
{
    let n = x.len() as int;
    let p = Seq::new(
        n as nat,
        |i: int|
            if i == 0 {
                j
            } else {
                raised(p1[i - 1], j)
            },
    );
    let q = Seq::new(
        n as nat,
        |k: int|
            if k == j {
                0
            } else {
                q1[lowered(k, j)] + 1
            },
    );
    let x1 = x.drop_first();
    let y1 = y.remove(j);
    assert forall|i: int| 0 <= i < p.len() implies 0 <= #[trigger] p[i] < q.len() && q[p[i]] == i by {
        if i > 0 {
            let v = p1[i - 1];
            assert(0 <= v < q1.len() && q1[v] == i - 1);
            assert(lowered(raised(v, j), j) == v);
        }
    }
    assert forall|k: int| 0 <= k < q.len() implies 0 <= #[trigger] q[k] < p.len() && p[q[k]] == k by {
        if k != j {
            let k1 = lowered(k, j);
            assert(0 <= q1[k1] < p1.len() && p1[q1[k1]] == k1);
            assert(raised(k1, j) == k);
        }
    }
    assert forall|i: int| 0 <= i < p.len() implies pair_equal(x[i], y[#[trigger] p[i]]) by {
        if i > 0 {
            let v = p1[i - 1];
            assert(pair_equal(x1[i - 1], y1[v]));
            assert(x1[i - 1] == x[i]);
            assert(y1[v] == y[raised(v, j)]);
        }
    }
    assert(is_matching(x, y, p, q));
}

/// Maps that are equal hold the same pairs in some correspondence.
pub proof fn lemma_equal_corresponds(x: Seq<(Value, Value)>, y: Seq<(Value, Value)>)
    requires
        dicts_equal(x, y),
    ensures
        correspond(x, y),
    decreases x.len(),
{
    if x.len() == 0 {
        assert(is_matching(x, y, Seq::<int>::empty(), Seq::<int>::empty()));
    } else {
        let j = first_match(x[0], y, 0) as int;
        lemma_first_match(x[0], y, 0);
        lemma_equal_lengths(x, y);
        lemma_equal_corresponds(x.drop_first(), y.remove(j));
        let (p1, q1) = choose|p1: Seq<int>, q1: Seq<int>|
            is_matching(x.drop_first(), y.remove(j), p1, q1);
        lemma_matching_grows(x, y, j, p1, q1);
    }
}


/// Where two pairs of `x` equal one pair of `y`, they equal the same pairs
/// of `y`.
pub open spec fn rect(x: Seq<(Value, Value)>, y: Seq<(Value, Value)>) -> bool {
    forall|i: int, i2: int, k: int, m: int|
        0 <= i < x.len() && 0 <= i2 < x.len() && 0 <= k < y.len() && 0 <= m < y.len()
            && #[trigger] pair_equal(x[i], y[k]) && #[trigger] pair_equal(x[i], y[m])
            && #[trigger] pair_equal(x[i2], y[k]) ==> pair_equal(x[i2], y[m])
}

/// The first match is no later than any match.
pub proof fn lemma_first_match_le(pt: (Value, Value), y: Seq<(Value, Value)>, m: int)
    requires
        0 <= m < y.len(),
        pair_equal(pt, y[m]),
    ensures
        first_match(pt, y, 0) <= m,
        pair_equal(pt, y[first_match(pt, y, 0) as int]),
{
    lemma_first_match(pt, y, 0);
}

/// A matching can be changed so that it pairs the first pair of `x` with
/// any given pair of `y` that equals it.
pub proof fn lemma_matching_swap(
    x: Seq<(Value, Value)>,
    y: Seq<(Value, Value)>,
    p: Seq<int>,
    q: Seq<int>,
    j: int,
) -> (r: (Seq<int>, Seq<int>))
    requires
        is_matching(x, y, p, q),
        rect(x, y),
        x.len() > 0,
        0 <= j < y.len(),
        pair_equal(x[0], y[j]),
    ensures
        is_matching(x, y, r.0, r.1),
        r.0[0] == j,
{
    if p[0] == j {
        (p, q)
    } else {
        let i2 = q[j];
        let m = p[0];
        assert(p[i2] == j);
        assert(q[m] == 0);
        assert(i2 != 0);
        let p2 = p.update(0, j).update(i2, m);
        let q2 = q.update(j, 0).update(m, i2);
        assert(pair_equal(x[0], y[m]));
        assert(pair_equal(x[i2], y[j])) by {
            assert(pair_equal(x[i2], y[p[i2]]));
        }
        assert(pair_equal(x[i2], y[m]));
        assert forall|i: int| 0 <= i < p2.len() implies 0 <= #[trigger] p2[i] < q2.len()
            && q2[p2[i]] == i by {
            if i != 0 && i != i2 {
                assert(q[p[i]] == i);
            }
        }
        assert forall|k: int| 0 <= k < q2.len() implies 0 <= #[trigger] q2[k] < p2.len()
            && p2[q2[k]] == k by {
            if k != j && k != m {
                assert(p[q[k]] == k);
            }
        }
        assert forall|i: int| 0 <= i < p2.len() implies pair_equal(x[i], y[#[trigger] p2[i]]) by {
            if i != 0 && i != i2 {
                assert(pair_equal(x[i], y[p[i]]));
            }
        }
        (p2, q2)
    }
}

/// A matching without its first pair is a matching of what is left.
pub proof fn lemma_matching_shrinks(
    x: Seq<(Value, Value)>,
    y: Seq<(Value, Value)>,
    p: Seq<int>,
    q: Seq<int>,
) -> (r: (Seq<int>, Seq<int>))
    requires
        is_matching(x, y, p, q),
        x.len() > 0,
    ensures
        is_matching(x.drop_first(), y.remove(p[0]), r.0, r.1),
{
    let j = p[0];
    let n = x.len() as int;
    let x1 = x.drop_first();
    let y1 = y.remove(j);
    let p1 = Seq::new((n - 1) as nat, |i: int| lowered(p[i + 1], j));
    let q1 = Seq::new((n - 1) as nat, |k: int| q[raised(k, j)] - 1);
    assert(q[j] == 0);
    assert forall|i: int| 0 <= i < p1.len() implies 0 <= #[trigger] p1[i] < q1.len() && q1[p1[i]]
        == i by {
        let v = p[i + 1];
        assert(q[v] == i + 1);
        assert(v != j);
        assert(raised(lowered(v, j), j) == v);
    }
    assert forall|k: int| 0 <= k < q1.len() implies 0 <= #[trigger] q1[k] < p1.len() && p1[q1[k]]
        == k by {
        let k0 = raised(k, j);
        assert(p[q[k0]] == k0);
        assert(q[k0] != 0);
        assert(lowered(k0, j) == k);
    }
    assert forall|i: int| 0 <= i < p1.len() implies pair_equal(x1[i], y1[#[trigger] p1[i]]) by {
        let v = p[i + 1];
        assert(q[v] == i + 1);
        assert(pair_equal(x[i + 1], y[v]));
        assert(x1[i] == x[i + 1]);
        assert(y1[lowered(v, j)] == y[v]);
    }
    (p1, q1)
}

/// What holds of the pairs holds of those that are left.
pub proof fn lemma_rect_shrinks(x: Seq<(Value, Value)>, y: Seq<(Value, Value)>, j: int)
    requires
        rect(x, y),
        x.len() > 0,
        0 <= j < y.len(),
    ensures
        rect(x.drop_first(), y.remove(j)),
{
    let x1 = x.drop_first();
    let y1 = y.remove(j);
    assert forall|i: int, i2: int, k: int, m: int|
        0 <= i < x1.len() && 0 <= i2 < x1.len() && 0 <= k < y1.len() && 0 <= m < y1.len()
            && #[trigger] pair_equal(x1[i], y1[k]) && #[trigger] pair_equal(x1[i], y1[m])
            && #[trigger] pair_equal(x1[i2], y1[k]) implies pair_equal(x1[i2], y1[m]) by {
        assert(x1[i] == x[i + 1]);
        assert(x1[i2] == x[i2 + 1]);
        assert(y1[k] == y[raised(k, j)]);
        assert(y1[m] == y[raised(m, j)]);
        assert(pair_equal(x[i + 1], y[raised(k, j)]));
        assert(pair_equal(x[i + 1], y[raised(m, j)]));
        assert(pair_equal(x[i2 + 1], y[raised(k, j)]));
    }
}

/// Maps that hold the same pairs in some correspondence are equal, where
/// equality of their pairs is as `rect` says.
pub proof fn lemma_corresponds_equal(
    x: Seq<(Value, Value)>,
    y: Seq<(Value, Value)>,
    p: Seq<int>,
    q: Seq<int>,
)
    requires
        is_matching(x, y, p, q),
        rect(x, y),
    ensures
        dicts_equal(x, y),
    decreases x.len(),
{
    if x.len() > 0 {
        assert(pair_equal(x[0], y[p[0]]));
        lemma_first_match_le(x[0], y, p[0]);
        let j = first_match(x[0], y, 0) as int;
        let (p2, q2) = lemma_matching_swap(x, y, p, q, j);
        let (p1, q1) = lemma_matching_shrinks(x, y, p2, q2);
        lemma_rect_shrinks(x, y, j);
        lemma_corresponds_equal(x.drop_first(), y.remove(j), p1, q1);
    }
}


/// The items of a list or of a vector.
pub open spec fn items_of(v: Value) -> Option<Seq<Value>> {
    match v {
        Value::List(x) => Some(x),
        Value::Vector(x) => Some(x),
        _ => None,
    }
}

/// Equality is symmetric.
pub proof fn law_equality_symmetric(a: Value, b: Value)
    ensures
        values_equal(a, b) == values_equal(b, a),
    decreases a, 1nat,
{
    match (items_of(a), items_of(b)) {
        (Some(x), Some(y)) => {
            if x.len() == y.len() {
                assert forall|i: int| 0 <= i < x.len() implies values_equal(x[i], y[i])
                    == values_equal(y[i], x[i]) by {
                    law_equality_symmetric(x[i], y[i]);
                }
            }
            assert(values_equal(a, b) == seqs_equal(x, y));
            assert(values_equal(b, a) == seqs_equal(y, x));
        },
        _ => {},
    }
    if let Value::Dict(x) = a {
        if let Value::Dict(y) = b {
            if dicts_equal(x, y) {
                lemma_equal_corresponds(x, y);
                let (p, q) = choose|p: Seq<int>, q: Seq<int>| is_matching(x, y, p, q);
                lemma_flipped(x, y, p, q);
                lemma_rect_flipped(x, y);
                lemma_corresponds_equal(y, x, q, p);
            }
            if dicts_equal(y, x) {
                lemma_equal_corresponds(y, x);
                let (p, q) = choose|p: Seq<int>, q: Seq<int>| is_matching(y, x, p, q);
                assert forall|i: int| 0 <= i < q.len() implies pair_equal(
                    x[i],
                    y[#[trigger] q[i]],
                ) by {
                    assert(pair_equal(y[q[i]], x[p[q[i]]]));
                    lemma_pair_symmetric(x[i], y[q[i]]);
                }
                assert(is_matching(x, y, q, p));
                lemma_rect_holds(x, y);
                lemma_corresponds_equal(x, y, q, p);
            }
        }
    }
}

/// Equality is transitive.
pub proof fn law_equality_transitive(a: Value, b: Value, c: Value)
    requires
        values_equal(a, b),
        values_equal(b, c),
    ensures
        values_equal(a, c),
    decreases a, 1nat,
{
    match (items_of(a), items_of(b), items_of(c)) {
        (Some(x), Some(y), Some(z)) => {
            assert(seqs_equal(x, y) && seqs_equal(y, z));
            assert forall|i: int| 0 <= i < x.len() implies values_equal(#[trigger] x[i], z[i]) by {
                assert(values_equal(x[i], y[i]));
                assert(values_equal(y[i], z[i]));
                law_equality_transitive(x[i], y[i], z[i]);
            }
            assert(seqs_equal(x, z));
        },
        _ => {},
    }
    if let Value::Dict(x) = a {
        if let Value::Dict(y) = b {
            if let Value::Dict(z) = c {
                lemma_equal_corresponds(x, y);
                lemma_equal_corresponds(y, z);
                let (p, q) = choose|p: Seq<int>, q: Seq<int>| is_matching(x, y, p, q);
                let (p2, q2) = choose|p2: Seq<int>, q2: Seq<int>| is_matching(y, z, p2, q2);
                let r = Seq::new(x.len(), |i: int| p2[p[i]]);
                let back = Seq::new(z.len(), |m: int| q[q2[m]]);
                assert forall|i: int| 0 <= i < r.len() implies 0 <= #[trigger] r[i] < back.len()
                    && back[r[i]] == i by {
                    assert(q[p[i]] == i);
                    assert(q2[p2[p[i]]] == p[i]);
                }
                assert forall|m: int| 0 <= m < back.len() implies 0 <= #[trigger] back[m] < r.len()
                    && r[back[m]] == m by {
                    assert(p2[q2[m]] == m);
                    assert(p[q[q2[m]]] == q2[m]);
                }
                assert forall|i: int| 0 <= i < r.len() implies pair_equal(x[i], z[#[trigger] r[i]]) by {
                    assert(pair_equal(x[i], y[p[i]]));
                    assert(pair_equal(y[p[i]], z[p2[p[i]]]));
                    lemma_pair_transitive(x[i], y[p[i]], z[p2[p[i]]]);
                }
                assert(is_matching(x, z, r, back));
                lemma_rect_holds(x, z);
                lemma_corresponds_equal(x, z, r, back);
            }
        }
    }
}

/// Two values that are equal to one value are equal.
pub proof fn lemma_equals_of_one(a: Value, b: Value, c: Value)
    requires
        values_equal(a, b),
        values_equal(a, c),
    ensures
        values_equal(b, c),
    decreases a, 1nat,
{
    match (items_of(a), items_of(b), items_of(c)) {
        (Some(x), Some(y), Some(z)) => {
            assert(seqs_equal(x, y) && seqs_equal(x, z));
            assert forall|i: int| 0 <= i < y.len() implies values_equal(#[trigger] y[i], z[i]) by {
                assert(values_equal(x[i], y[i]));
                assert(values_equal(x[i], z[i]));
                lemma_equals_of_one(x[i], y[i], z[i]);
            }
            assert(seqs_equal(y, z));
        },
        _ => {},
    }
    if let Value::Dict(x) = a {
        if let Value::Dict(y) = b {
            if let Value::Dict(z) = c {
                lemma_equal_corresponds(x, y);
                lemma_equal_corresponds(x, z);
                let (p, q) = choose|p: Seq<int>, q: Seq<int>| is_matching(x, y, p, q);
                let (p2, q2) = choose|p2: Seq<int>, q2: Seq<int>| is_matching(x, z, p2, q2);
                let r = Seq::new(y.len(), |k: int| p2[q[k]]);
                let back = Seq::new(z.len(), |m: int| p[q2[m]]);
                assert forall|k: int| 0 <= k < r.len() implies 0 <= #[trigger] r[k] < back.len()
                    && back[r[k]] == k by {
                    assert(p[q[k]] == k);
                    assert(q2[p2[q[k]]] == q[k]);
                }
                assert forall|m: int| 0 <= m < back.len() implies 0 <= #[trigger] back[m] < r.len()
                    && r[back[m]] == m by {
                    assert(p2[q2[m]] == m);
                    assert(q[p[q2[m]]] == q2[m]);
                }
                assert forall|k: int| 0 <= k < r.len() implies pair_equal(y[k], z[#[trigger] r[k]]) by {
                    assert(p[q[k]] == k);
                    assert(pair_equal(x[q[k]], y[p[q[k]]]));
                    assert(pair_equal(x[q[k]], z[p2[q[k]]]));
                    lemma_pair_equals_of_one(x[q[k]], y[k], z[p2[q[k]]]);
                }
                assert(is_matching(y, z, r, back));
                assert forall|k: int, k2: int, m: int, n: int|
                    0 <= k < y.len() && 0 <= k2 < y.len() && 0 <= m < z.len() && 0 <= n < z.len()
                        && #[trigger] pair_equal(y[k], z[m]) && #[trigger] pair_equal(y[k], z[n])
                        && #[trigger] pair_equal(y[k2], z[m]) implies pair_equal(y[k2], z[n]) by {
                    let i = q[k];
                    let i2 = q[k2];
                    assert(p[i] == k && p[i2] == k2);
                    assert(pair_equal(x[i], y[p[i]]));
                    assert(pair_equal(x[i2], y[p[i2]]));
                    lemma_pair_transitive(x[i], y[k], z[m]);
                    lemma_pair_transitive(x[i], y[k], z[n]);
                    lemma_pair_equals_of_one(x[i], z[m], z[n]);
                    lemma_pair_transitive(x[i2], y[k2], z[m]);
                    lemma_pair_transitive(x[i2], z[m], z[n]);
                    lemma_pair_equals_of_one(x[i2], y[k2], z[n]);
                }
                assert(rect(y, z));
                lemma_corresponds_equal(y, z, r, back);
            }
        }
    }
}

/// Equality of pairs is symmetric.
proof fn lemma_pair_symmetric(a: (Value, Value), b: (Value, Value))
    ensures
        pair_equal(a, b) == pair_equal(b, a),
    decreases a, 0nat,
{
    law_equality_symmetric(a.0, b.0);
    law_equality_symmetric(a.1, b.1);
}

/// Equality of pairs is transitive.
proof fn lemma_pair_transitive(a: (Value, Value), b: (Value, Value), c: (Value, Value))
    requires
        pair_equal(a, b),
        pair_equal(b, c),
    ensures
        pair_equal(a, c),
    decreases a, 0nat,
{
    law_equality_transitive(a.0, b.0, c.0);
    law_equality_transitive(a.1, b.1, c.1);
}

/// Two pairs that are equal to one pair are equal.
proof fn lemma_pair_equals_of_one(a: (Value, Value), b: (Value, Value), c: (Value, Value))
    requires
        pair_equal(a, b),
        pair_equal(a, c),
    ensures
        pair_equal(b, c),
    decreases a, 0nat,
{
    lemma_equals_of_one(a.0, b.0, c.0);
    lemma_equals_of_one(a.1, b.1, c.1);
}

/// A matching of `x` with `y`, read backwards, is a matching of `y` with `x`.
proof fn lemma_flipped(x: Seq<(Value, Value)>, y: Seq<(Value, Value)>, p: Seq<int>, q: Seq<int>)
    requires
        is_matching(x, y, p, q),
    ensures
        is_matching(y, x, q, p),
    decreases x, 2nat,
{
    assert forall|k: int| 0 <= k < q.len() implies pair_equal(y[k], x[#[trigger] q[k]]) by {
        assert(p[q[k]] == k);
        assert(pair_equal(x[q[k]], y[p[q[k]]]));
        lemma_pair_symmetric(x[q[k]], y[k]);
    }
}

/// Equality of the pairs of `x` with the pairs of any `y` is as `rect` says.
proof fn lemma_rect_holds(x: Seq<(Value, Value)>, y: Seq<(Value, Value)>)
    ensures
        rect(x, y),
    decreases x, 2nat,
{
    assert forall|i: int, i2: int, k: int, m: int|
        0 <= i < x.len() && 0 <= i2 < x.len() && 0 <= k < y.len() && 0 <= m < y.len()
            && #[trigger] pair_equal(x[i], y[k]) && #[trigger] pair_equal(x[i], y[m])
            && #[trigger] pair_equal(x[i2], y[k]) implies pair_equal(x[i2], y[m]) by {
        lemma_pair_equals_of_one(x[i], y[k], y[m]);
        lemma_pair_transitive(x[i2], y[k], y[m]);
    }
}

/// The same with the pairs of `x` on the right.
proof fn lemma_rect_flipped(x: Seq<(Value, Value)>, y: Seq<(Value, Value)>)
    ensures
        rect(y, x),
    decreases x, 2nat,
{
    assert forall|k: int, k2: int, i: int, m: int|
        0 <= k < y.len() && 0 <= k2 < y.len() && 0 <= i < x.len() && 0 <= m < x.len()
            && #[trigger] pair_equal(y[k], x[i]) && #[trigger] pair_equal(y[k], x[m])
            && #[trigger] pair_equal(y[k2], x[i]) implies pair_equal(y[k2], x[m]) by {
        lemma_pair_symmetric(x[i], y[k]);
        lemma_pair_symmetric(x[m], y[k]);
        lemma_pair_symmetric(x[i], y[k2]);
        lemma_pair_equals_of_one(x[i], y[k], y[k2]);
        lemma_pair_transitive(x[m], y[k], y[k2]);
        lemma_pair_symmetric(x[m], y[k2]);
    }
}

/// Two maps are equal exactly where they hold the same pairs in some
/// correspondence.
pub proof fn law_maps_equal_by_correspondence(x: Seq<(Value, Value)>, y: Seq<(Value, Value)>)
    ensures
        values_equal(Value::Dict(x), Value::Dict(y)) <==> correspond(x, y),
{
    if dicts_equal(x, y) {
        lemma_equal_corresponds(x, y);
    }
    if correspond(x, y) {
        let (p, q) = choose|p: Seq<int>, q: Seq<int>| is_matching(x, y, p, q);
        lemma_rect_holds(x, y);
        lemma_corresponds_equal(x, y, p, q);
    }
}

} // verus!
