use vstd::prelude::*;

use crate::assoc::{assoc_find, has_key, key_at};

verus! {

/// A structured value read from a tracked file: the usual JSON shapes.
///
/// A number is carried as its canonical decimal rendering, so two numbers
/// count as the same value exactly when their renderings agree.  A mapping
/// keeps its entries in the order they were produced; a well-formed mapping
/// has pairwise distinct keys.
pub enum JsonValue {
    Null,
    Boolean(bool),
    Number(String),
    Text(String),
    Sequence(Vec<JsonValue>),
    Mapping(Vec<(String, JsonValue)>),
}

/// Well-formedness: every mapping anywhere in the value has unique keys.
pub open spec fn jv_wf(v: JsonValue) -> bool
    decreases v,
{
    match v {
        JsonValue::Sequence(xs) => forall|i: int|
            0 <= i < xs@.len() ==> jv_wf(#[trigger] xs@[i]),
        JsonValue::Mapping(ps) => {
            &&& forall|i: int, j: int|
                0 <= i < j < ps@.len() ==> key_at(ps@, i) != key_at(ps@, j)
            &&& forall|i: int| 0 <= i < ps@.len() ==> jv_wf((#[trigger] ps@[i]).1)
        },
        _ => true,
    }
}

/// Structural equality of two values:
/// mappings are equal when they bind the same key set and, at every shared
/// key, equal values, whatever the entry order; sequences are equal only
/// pointwise, in order; every other pair is equal only with the same shape
/// and the same literal.
pub open spec fn jv_eq(a: JsonValue, b: JsonValue) -> bool
    decreases a,
{
    match (a, b) {
        (JsonValue::Null, JsonValue::Null) => true,
        (JsonValue::Boolean(x), JsonValue::Boolean(y)) => x == y,
        (JsonValue::Number(x), JsonValue::Number(y)) => x@ == y@,
        (JsonValue::Text(x), JsonValue::Text(y)) => x@ == y@,
        (JsonValue::Sequence(xs), JsonValue::Sequence(ys)) => {
            &&& xs@.len() == ys@.len()
            &&& forall|i: int| 0 <= i < xs@.len() ==> jv_eq(#[trigger] xs@[i], ys@[i])
        },
        (JsonValue::Mapping(ps), JsonValue::Mapping(qs)) => {
            &&& forall|i: int| 0 <= i < ps@.len() ==> has_key(qs@, #[trigger] key_at(ps@, i))
            &&& forall|j: int| 0 <= j < qs@.len() ==> has_key(ps@, #[trigger] key_at(qs@, j))
            &&& forall|i: int, j: int|
                0 <= i < ps@.len() && 0 <= j < qs@.len() && key_at(ps@, i) == key_at(qs@, j)
                    ==> jv_eq(#[trigger] ps@[i].1, #[trigger] qs@[j].1)
        },
        _ => false,
    }
}

/// Reports whether two well-formed values differ structurally.
pub fn deep_diff_json(a: &JsonValue, b: &JsonValue) -> (r: bool)
    requires
        jv_wf(*a),
        jv_wf(*b),
    ensures
        r == !jv_eq(*a, *b),
    decreases *a,
{
    match (a, b) {
        (JsonValue::Null, JsonValue::Null) => false,
        (JsonValue::Boolean(x), JsonValue::Boolean(y)) => x != y,
        (JsonValue::Number(x), JsonValue::Number(y)) => !x.eq(y),
        (JsonValue::Text(x), JsonValue::Text(y)) => !x.eq(y),
        (JsonValue::Sequence(xs), JsonValue::Sequence(ys)) => {
            if xs.len() != ys.len() {
                return true;
            }
            let n = xs.len();
            let mut i: usize = 0;
            while i < n
                invariant
                    n == xs@.len() == ys@.len(),
                    i <= n,
                    *a == JsonValue::Sequence(*xs),
                    *b == JsonValue::Sequence(*ys),
                    jv_wf(*a),
                    jv_wf(*b),
                    forall|k: int| 0 <= k < i ==> jv_eq(#[trigger] xs@[k], ys@[k]),
                decreases n - i,
            {
                proof {
                    assert(decreases_to!(*a => (*a)->Sequence_0));
                    assert((*a)->Sequence_0 == *xs);
                    assert((*b)->Sequence_0 == *ys);
                    assert(decreases_to!(*xs => xs@));
                    assert(decreases_to!(xs@ => xs@[i as int]));
                    assert(jv_wf(xs@[i as int]));
                    assert(jv_wf(ys@[i as int]));
                }
                if deep_diff_json(&xs[i], &ys[i]) {
                    return true;
                }
                i += 1;
            }
            proof {
                assert((*a)->Sequence_0 == *xs);
                assert((*b)->Sequence_0 == *ys);
                assert(jv_eq(*a, *b));
            }
            false
        },
        (JsonValue::Mapping(ps), JsonValue::Mapping(qs)) => {
            let np = ps.len();
            let nq = qs.len();
            let mut i: usize = 0;
            while i < np
                invariant
                    np == ps@.len(),
                    nq == qs@.len(),
                    i <= np,
                    *a == JsonValue::Mapping(*ps),
                    *b == JsonValue::Mapping(*qs),
                    jv_wf(*a),
                    jv_wf(*b),
                    forall|k: int| 0 <= k < i ==> has_key(qs@, #[trigger] key_at(ps@, k)),
                    forall|k: int, j: int|
                        0 <= k < i && 0 <= j < qs@.len() && key_at(ps@, k) == key_at(qs@, j)
                            ==> jv_eq(#[trigger] ps@[k].1, #[trigger] qs@[j].1),
                decreases np - i,
            {
                match assoc_find(qs, &ps[i].0) {
                    None => {
                        proof {
                            assert((*a)->Mapping_0 == *ps);
                            assert((*b)->Mapping_0 == *qs);
                            assert(!has_key(qs@, key_at(ps@, i as int)));
                            assert(!jv_eq(*a, *b));
                        }
                        return true;
                    },
                    Some(j) => {
                        proof {
                            assert(decreases_to!(*a => (*a)->Mapping_0));
                            assert((*a)->Mapping_0 == *ps);
                            assert((*b)->Mapping_0 == *qs);
                            assert(decreases_to!(*ps => ps@));
                            assert(decreases_to!(ps@ => ps@[i as int]));
                            assert(decreases_to!(ps@[i as int] => ps@[i as int].1));
                            assert(jv_wf(ps@[i as int].1));
                            assert(jv_wf(qs@[j as int].1));
                        }
                        if deep_diff_json(&ps[i].1, &qs[j].1) {
                            proof {
                                assert(key_at(ps@, i as int) == key_at(qs@, j as int));
                                assert(!jv_eq(*a, *b));
                            }
                            return true;
                        }
                        proof {
                            // The right side has unique keys, so the found
                            // entry is the only one that carries this key.
                            assert forall|jj: int|
                                0 <= jj < qs@.len() && key_at(ps@, i as int) == key_at(
                                    qs@,
                                    jj,
                                ) implies jv_eq(ps@[i as int].1, qs@[jj].1) by {
                                if jj < j as int {
                                    assert(key_at(qs@, jj) != key_at(qs@, j as int));
                                } else if jj > j as int {
                                    assert(key_at(qs@, j as int) != key_at(qs@, jj));
                                }
                            }
                        }
                    },
                }
                i += 1;
            }
            let mut j: usize = 0;
            while j < nq
                invariant
                    np == ps@.len(),
                    nq == qs@.len(),
                    j <= nq,
                    *a == JsonValue::Mapping(*ps),
                    *b == JsonValue::Mapping(*qs),
                    forall|k: int| 0 <= k < ps@.len() ==> has_key(qs@, #[trigger] key_at(ps@, k)),
                    forall|k: int, t: int|
                        0 <= k < ps@.len() && 0 <= t < qs@.len() && key_at(ps@, k) == key_at(qs@, t)
                            ==> jv_eq(#[trigger] ps@[k].1, #[trigger] qs@[t].1),
                    forall|k: int| 0 <= k < j ==> has_key(ps@, #[trigger] key_at(qs@, k)),
                decreases nq - j,
            {
                match assoc_find(ps, &qs[j].0) {
                    None => {
                        proof {
                            assert((*a)->Mapping_0 == *ps);
                            assert((*b)->Mapping_0 == *qs);
                            assert(!has_key(ps@, key_at(qs@, j as int)));
                            assert(!jv_eq(*a, *b));
                        }
                        return true;
                    },
                    Some(_) => {},
                }
                j += 1;
            }
            proof {
                assert((*a)->Mapping_0 == *ps);
                assert((*b)->Mapping_0 == *qs);
                assert(jv_eq(*a, *b));
            }
            false
        },
        _ => true,
    }
}

} // verus!
