use vstd::prelude::*;

use crate::assoc::{al_put, assoc_find, entries_v, has_key, key_at, lemma_al_put_append,
    lemma_al_put_replace, lemma_entries_v, uniq_keys};
use crate::value::{jv_wf, JsonValue};

verus! {

/// Declares serde_json::Value so that the trusted items below can take
/// and return it; the value stays opaque here.
#[verifier::external_type_specification]
#[verifier::external_body]
pub struct ExValue(serde_json::Value);

/// A record set keyed by primary key: later entries for the same key have
/// already replaced earlier ones, so keys are unique.
pub type RecordMap = Vec<(String, JsonValue)>;

/// The outcome of reading a byte string as a JSON array of values:
/// `None` when the bytes are not a single JSON array, otherwise the parsed
/// elements in order.
pub uninterp spec fn json_records_of(bytes: Seq<u8>) -> Option<Seq<JsonValue>>;

/// Relies on serde_json::Value's variants: each is mirrored one for one,
/// with numbers carried as serde_json's canonical rendering.  serde_json
/// mappings have unique keys, so the mirror is well formed.
#[verifier::external_body]
fn jv_from(v: serde_json::Value) -> (r: JsonValue)
    ensures
        jv_wf(r),
{
    match v {
        serde_json::Value::Null => JsonValue::Null,
        serde_json::Value::Bool(b) => JsonValue::Boolean(b),
        serde_json::Value::Number(n) => JsonValue::Number(n.to_string()),
        serde_json::Value::String(s) => JsonValue::Text(s),
        serde_json::Value::Array(xs) => JsonValue::Sequence(
            xs.into_iter().map(jv_from).collect(),
        ),
        serde_json::Value::Object(ps) => JsonValue::Mapping(
            ps.into_iter().map(|p| (p.0, jv_from(p.1))).collect(),
        ),
    }
}

/// Relies on serde_json::from_slice::<Vec<serde_json::Value>>: parsing is a
/// function of the bytes alone and fails exactly when the bytes are not one
/// JSON array; the parsed values are mirrored by `jv_from`.
#[verifier::external_body]
pub(crate) fn parse_records(bytes: &[u8]) -> (r: Option<Vec<JsonValue>>)
    ensures
        match r {
            Some(vs) => {
                &&& json_records_of(bytes@) == Some(vs@)
                &&& forall|i: int| 0 <= i < vs@.len() ==> jv_wf(#[trigger] vs@[i])
            },
            None => json_records_of(bytes@) is None,
        },
{
    match serde_json::from_slice::<Vec<serde_json::Value>>(bytes) {
        Ok(vs) => Some(vs.into_iter().map(jv_from).collect()),
        Err(_) => None,
    }
}

/// The primary key a record contributes: the string value bound to the
/// `pk` field of a mapping, and nothing for any other shape.
pub open spec fn record_key(v: JsonValue, pk: Seq<char>) -> Option<Seq<char>> {
    match v {
        JsonValue::Mapping(ps) => {
            if has_key(ps@, pk) {
                match ps@[choose|j: int| 0 <= j < ps@.len() && key_at(ps@, j) == pk].1 {
                    JsonValue::Text(s) => Some(s@),
                    _ => None,
                }
            } else {
                None
            }
        },
        _ => None,
    }
}

/// Grouping a value sequence by primary key, later entries winning:
/// `None` as soon as one value yields no primary key.
pub open spec fn group_spec(vs: Seq<JsonValue>, pk: Seq<char>) -> Option<
    Seq<(Seq<char>, JsonValue)>,
>
    decreases vs.len(),
{
    if vs.len() == 0 {
        Some(Seq::empty())
    } else {
        match group_spec(vs.drop_last(), pk) {
            None => None,
            Some(acc) => match record_key(vs.last(), pk) {
                None => None,
                Some(k) => Some(al_put(acc, k, vs.last())),
            },
        }
    }
}

/// What a whole byte string contributes: parse, then group.
pub open spec fn records_of_bytes(bytes: Seq<u8>, pk: Seq<char>) -> Option<
    Seq<(Seq<char>, JsonValue)>,
> {
    match json_records_of(bytes) {
        None => None,
        Some(vs) => group_spec(vs, pk),
    }
}

/// Why a byte string yields no record set.
#[derive(Debug)]
pub enum ContentFault {
    /// The bytes are not one JSON array of values.
    NotArray,
    /// Some element lacks a string under the primary-key field.
    BadRecord,
}

/// The primary key of one record, as executable code.
fn record_key_of(v: &JsonValue, primary_key: &String) -> (r: Option<String>)
    requires
        jv_wf(*v),
    ensures
        match r {
            Some(s) => record_key(*v, primary_key@) == Some(s@),
            None => record_key(*v, primary_key@) is None,
        },
{
    match v {
        JsonValue::Mapping(ps) => {
            proof {
                assert((*v)->Mapping_0 == *ps);
            }
            match assoc_find(ps, primary_key) {
                Some(j) => {
                    proof {
                        let jj = choose|t: int|
                            0 <= t < ps@.len() && key_at(ps@, t) == primary_key@;
                        assert(key_at(ps@, j as int) == primary_key@);
                        if jj != j as int {
                            if jj < j as int {
                                assert(key_at(ps@, jj) != key_at(ps@, j as int));
                            } else {
                                assert(key_at(ps@, j as int) != key_at(ps@, jj));
                            }
                        }
                        assert(jj == j as int);
                    }
                    match &ps[j].1 {
                        JsonValue::Text(s) => Some(s.clone()),
                        _ => None,
                    }
                },
                None => None,
            }
        },
        _ => None,
    }
}

/// Groups parsed values by primary key, later entries replacing earlier
/// ones in place; fails on the first value without a string primary key.
pub fn group_records(vals: Vec<JsonValue>, primary_key: &String) -> (r: Option<RecordMap>)
    requires
        forall|i: int| 0 <= i < vals@.len() ==> jv_wf(#[trigger] vals@[i]),
    ensures
        match r {
            Some(m) => {
                &&& group_spec(vals@, primary_key@) == Some(entries_v(m@))
                &&& uniq_keys(m@)
                &&& forall|i: int| 0 <= i < m@.len() ==> jv_wf((#[trigger] m@[i]).1)
            },
            None => group_spec(vals@, primary_key@) is None,
        },
{
    let ghost all = vals@;
    let mut work = vals;
    let mut acc: RecordMap = Vec::new();
    let ghost i: int = 0;
    while work.len() > 0
        invariant
            0 <= i <= all.len(),
            work@ == all.skip(i),
            all == vals@,
            forall|t: int| 0 <= t < all.len() ==> jv_wf(#[trigger] all[t]),
            group_spec(all.take(i), primary_key@) == Some(entries_v(acc@)),
            uniq_keys(acc@),
            forall|t: int| 0 <= t < acc@.len() ==> jv_wf((#[trigger] acc@[t]).1),
        decreases work@.len(),
    {
        let v = work.remove(0);
        proof {
            assert(v == all[i]);
            assert(all.take(i + 1).drop_last() =~= all.take(i));
            assert(all.take(i + 1).last() == all[i]);
            assert(work@ =~= all.skip(i + 1));
        }
        match record_key_of(&v, primary_key) {
            None => {
                proof {
                    assert(group_spec(all.take(i + 1), primary_key@) is None);
                    lemma_group_spec_extend_none(all, primary_key@, i);
                }
                return None;
            },
            Some(key) => {
                let ghost old_acc = acc@;
                let ghost kv = key@;
                let ghost gv = v;
                match assoc_find(&acc, &key) {
                    Some(j) => {
                        acc.remove(j);
                        acc.insert(j, (key, v));
                        proof {
                            lemma_entries_v(old_acc);
                            assert(acc@ =~= old_acc.update(j as int, (acc@[j as int].0, gv)));
                            assert(entries_v(old_acc)[j as int].0 == kv);
                            lemma_al_put_replace(entries_v(old_acc), kv, gv, j as int);
                            assert(entries_v(acc@) =~= entries_v(old_acc).update(
                                j as int,
                                (kv, gv),
                            ));
                            assert(entries_v(acc@) == al_put(entries_v(old_acc), kv, gv));
                            assert(forall|t: int|
                                0 <= t < acc@.len() ==> key_at(acc@, t) == if t == j as int {
                                    kv
                                } else {
                                    key_at(old_acc, t)
                                });
                            assert(key_at(old_acc, j as int) == kv);
                            assert(uniq_keys(acc@));
                        }
                    },
                    None => {
                        acc.push((key, v));
                        proof {
                            lemma_entries_v(old_acc);
                            assert(forall|t: int|
                                0 <= t < entries_v(old_acc).len() ==> entries_v(old_acc)[t].0
                                    != kv);
                            lemma_al_put_append(entries_v(old_acc), kv, gv);
                            assert(entries_v(acc@) =~= entries_v(old_acc).push((kv, gv)));
                            assert(entries_v(acc@) == al_put(entries_v(old_acc), kv, gv));
                            assert(forall|t: int|
                                0 <= t < old_acc.len() ==> key_at(acc@, t) == key_at(old_acc, t));
                            assert(key_at(acc@, acc@.len() - 1) == kv);
                            assert(forall|t: int| 0 <= t < old_acc.len() ==> key_at(old_acc, t) != kv);
                            assert forall|x: int, y: int|
                                0 <= x < y < acc@.len() implies key_at(acc@, x) != key_at(
                                acc@,
                                y,
                            ) by {
                                if y < acc@.len() - 1 {
                                    assert(key_at(old_acc, x) != key_at(old_acc, y));
                                } else {
                                    assert(key_at(acc@, x) == key_at(old_acc, x));
                                }
                            }
                            assert(uniq_keys(acc@));
                        }
                    },
                }
                proof {
                    i = i + 1;
                }
            },
        }
    }
    proof {
        assert(i == all.len());
        assert(all.take(i) =~= all);
    }
    Some(acc)
}

/// Once one value yields no primary key, the whole grouping fails.
proof fn lemma_group_spec_extend_none(vs: Seq<JsonValue>, pk: Seq<char>, i: int)
    requires
        0 <= i < vs.len(),
        group_spec(vs.take(i + 1), pk) is None,
    ensures
        group_spec(vs, pk) is None,
    decreases vs.len() - i,
{
    if i + 1 == vs.len() {
        assert(vs.take(i + 1) =~= vs);
    } else {
        assert(vs.take(i + 2).drop_last() =~= vs.take(i + 1));
        lemma_group_spec_extend_none(vs, pk, i + 1);
    }
}

/// Parses raw content as a JSON array of records and groups it by the
/// primary-key field, later records winning.
pub fn get_json_data(content: &[u8], primary_key: &String) -> (r: Result<RecordMap, ContentFault>)
    ensures
        match r {
            Ok(m) => {
                &&& records_of_bytes(content@, primary_key@) == Some(entries_v(m@))
                &&& uniq_keys(m@)
                &&& forall|i: int| 0 <= i < m@.len() ==> jv_wf((#[trigger] m@[i]).1)
            },
            Err(f) => match f {
                ContentFault::NotArray => json_records_of(content@) is None,
                ContentFault::BadRecord => {
                    &&& json_records_of(content@) is Some
                    &&& records_of_bytes(content@, primary_key@) is None
                },
            },
        },
{
    match parse_records(content) {
        None => Err(ContentFault::NotArray),
        Some(vals) => match group_records(vals, primary_key) {
            None => Err(ContentFault::BadRecord),
            Some(m) => Ok(m),
        },
    }
}

} // verus!
