use vstd::prelude::*;

use crate::assoc::{al_del, al_put, alv_get, alv_has, alv_uniq, assoc_find, entries_v, key_at,
    lemma_al_del_absent, lemma_al_del_found, lemma_al_put_append, lemma_al_put_replace,
    lemma_alv_first, lemma_entries_v};
use crate::errors::HistoryError;
use crate::extract::{get_json_data, records_of_bytes, RecordMap};
use crate::value::{deep_diff_json, jv_eq, jv_wf, JsonValue};

verus! {

/// Tag for the three kinds of record-level events a commit can cause.
#[derive(Clone, Copy)]
pub enum ChangeType {
    Added,
    Removed,
    Modified,
}

/// The immutable mark of one event: which commit, at what time.
pub struct ChangeInstant {
    pub commit: String,
    pub timestamp: i64,
}

/// View of an instant: the commit id's characters and the raw timestamp.
pub open spec fn ci_v(c: ChangeInstant) -> (Seq<char>, i64) {
    (c.commit@, c.timestamp)
}

/// An exact copy of an instant.
pub fn clone_instant(c: &ChangeInstant) -> (r: ChangeInstant)
    ensures
        r == *c,
{
    ChangeInstant { commit: c.commit.clone(), timestamp: c.timestamp }
}

/// The per-key aggregate: three append-only event sequences, newest first
/// while the walk runs (the assembler reverses them on output).
pub struct ChangeRecord {
    pub added: Vec<ChangeInstant>,
    pub removed: Vec<ChangeInstant>,
    pub modified: Vec<ChangeInstant>,
}

/// View of a per-key aggregate.
pub open spec fn cr_v(r: ChangeRecord) -> (Seq<(Seq<char>, i64)>, Seq<(Seq<char>, i64)>, Seq<
    (Seq<char>, i64),
>) {
    (r.added@.map_values(|c: ChangeInstant| ci_v(c)),
    r.removed@.map_values(|c: ChangeInstant| ci_v(c)),
    r.modified@.map_values(|c: ChangeInstant| ci_v(c)))
}

/// One path's timeline: primary key to per-key aggregate.
pub type PathTimeline = Vec<(String, ChangeRecord)>;

/// View of a timeline.
pub open spec fn tl_v(t: Seq<(String, ChangeRecord)>) -> Seq<
    (Seq<char>, (Seq<(Seq<char>, i64)>, Seq<(Seq<char>, i64)>, Seq<(Seq<char>, i64)>)),
> {
    t.map_values(|p: (String, ChangeRecord)| (p.0@, cr_v(p.1)))
}

/// The view is pointwise.
pub proof fn lemma_tl_v(s: Seq<(String, ChangeRecord)>)
    ensures
        tl_v(s).len() == s.len(),
        forall|t: int| 0 <= t < s.len() ==> (#[trigger] tl_v(s)[t]) == (s[t].0@, cr_v(s[t].1)),
        forall|t: int| 0 <= t < s.len() ==> key_at(s, t) == (#[trigger] tl_v(s)[t]).0,
{
}

/// A record with no events yet.
pub open spec fn empty_cr() -> (Seq<(Seq<char>, i64)>, Seq<(Seq<char>, i64)>, Seq<
    (Seq<char>, i64),
>) {
    (Seq::empty(), Seq::empty(), Seq::empty())
}

/// One event appended to the matching sequence of a record view.
pub open spec fn cr_push(
    c: (Seq<(Seq<char>, i64)>, Seq<(Seq<char>, i64)>, Seq<(Seq<char>, i64)>),
    inst: (Seq<char>, i64),
    ct: ChangeType,
) -> (Seq<(Seq<char>, i64)>, Seq<(Seq<char>, i64)>, Seq<(Seq<char>, i64)>) {
    match ct {
        ChangeType::Added => (c.0.push(inst), c.1, c.2),
        ChangeType::Removed => (c.0, c.1.push(inst), c.2),
        ChangeType::Modified => (c.0, c.1, c.2.push(inst)),
    }
}

/// One event folded into a timeline view: the key's record grows by the
/// instant, a fresh record appearing for a first event.
pub open spec fn tl_put_event(
    t: Seq<(Seq<char>, (Seq<(Seq<char>, i64)>, Seq<(Seq<char>, i64)>, Seq<(Seq<char>, i64)>))>,
    k: Seq<char>,
    inst: (Seq<char>, i64),
    ct: ChangeType,
) -> Seq<(Seq<char>, (Seq<(Seq<char>, i64)>, Seq<(Seq<char>, i64)>, Seq<(Seq<char>, i64)>))> {
    al_put(t, k, cr_push(if alv_has(t, k) { alv_get(t, k) } else { empty_cr() }, inst, ct))
}

/// Appends one event instant for `primary_key` under the given kind,
/// creating the key's record on its first event.
pub fn update_change_record_entry(
    change_record_entry: &mut PathTimeline,
    primary_key: String,
    change_instant: ChangeInstant,
    change_type: ChangeType,
)
    requires
        alv_uniq(tl_v(old(change_record_entry)@)),
    ensures
        alv_uniq(tl_v(final(change_record_entry)@)),
        tl_v(final(change_record_entry)@) == tl_put_event(
            tl_v(old(change_record_entry)@),
            primary_key@,
            ci_v(change_instant),
            change_type,
        ),
{
    let ghost old_t = change_record_entry@;
    let ghost kv = primary_key@;
    let ghost iv = ci_v(change_instant);
    proof {
        lemma_tl_v(old_t);
    }
    match assoc_find(change_record_entry, &primary_key) {
        Some(j) => {
            let (key, mut rec) = change_record_entry.remove(j);
            match change_type {
                ChangeType::Added => rec.added.push(change_instant),
                ChangeType::Removed => rec.removed.push(change_instant),
                ChangeType::Modified => rec.modified.push(change_instant),
            }
            change_record_entry.insert(j, (key, rec));
            proof {
                let ghost new_t = change_record_entry@;
                lemma_tl_v(new_t);
                lemma_alv_first(tl_v(old_t), kv, j as int);
                assert(cr_v(new_t[j as int].1) =~~= cr_push(
                    alv_get(tl_v(old_t), kv),
                    iv,
                    change_type,
                ));
                lemma_al_put_replace(
                    tl_v(old_t),
                    kv,
                    cr_v(new_t[j as int].1),
                    j as int,
                );
                assert(tl_v(new_t) =~= tl_v(old_t).update(
                    j as int,
                    (kv, cr_v(new_t[j as int].1)),
                ));
                assert(tl_v(new_t) == tl_put_event(tl_v(old_t), kv, iv, change_type));
                assert forall|x: int, y: int|
                    0 <= x < y < new_t.len() implies tl_v(new_t)[x].0 != tl_v(new_t)[y].0 by {
                    assert(tl_v(old_t)[x].0 != tl_v(old_t)[y].0);
                }
            }
        },
        None => {
            let mut rec = ChangeRecord { added: Vec::new(), removed: Vec::new(), modified: Vec::new() };
            match change_type {
                ChangeType::Added => rec.added.push(change_instant),
                ChangeType::Removed => rec.removed.push(change_instant),
                ChangeType::Modified => rec.modified.push(change_instant),
            }
            change_record_entry.push((primary_key, rec));
            proof {
                let ghost new_t = change_record_entry@;
                lemma_tl_v(new_t);
                assert(!alv_has(tl_v(old_t), kv));
                assert(forall|t: int| 0 <= t < tl_v(old_t).len() ==> tl_v(old_t)[t].0 != kv);
                assert(cr_v(new_t[new_t.len() - 1].1) =~~= cr_push(empty_cr(), iv, change_type));
                lemma_al_put_append(tl_v(old_t), kv, cr_v(new_t[new_t.len() - 1].1));
                assert(tl_v(new_t) =~= tl_v(old_t).push((kv, cr_v(new_t[new_t.len() - 1].1))));
                assert(tl_v(new_t) == tl_put_event(tl_v(old_t), kv, iv, change_type));
                assert forall|x: int, y: int|
                    0 <= x < y < new_t.len() implies tl_v(new_t)[x].0 != tl_v(new_t)[y].0 by {
                    if y < new_t.len() - 1 {
                        assert(tl_v(old_t)[x].0 != tl_v(old_t)[y].0);
                    } else {
                        assert(tl_v(new_t)[x].0 == tl_v(old_t)[x].0);
                    }
                }
            }
        },
    }
}

/// A whole record map folded into a timeline view as one event kind,
/// entry by entry in map order.
pub open spec fn tl_add_all(
    t: Seq<(Seq<char>, (Seq<(Seq<char>, i64)>, Seq<(Seq<char>, i64)>, Seq<(Seq<char>, i64)>))>,
    m: Seq<(Seq<char>, JsonValue)>,
    inst: (Seq<char>, i64),
    ct: ChangeType,
) -> Seq<(Seq<char>, (Seq<(Seq<char>, i64)>, Seq<(Seq<char>, i64)>, Seq<(Seq<char>, i64)>))>
    decreases m.len(),
{
    if m.len() == 0 {
        t
    } else {
        tl_add_all(tl_put_event(t, m[0].0, inst, ct), m.skip(1), inst, ct)
    }
}

/// Appends one event for every key of `m`, in map order.
pub fn apply_events(
    tl: &mut PathTimeline,
    m: &RecordMap,
    instant: &ChangeInstant,
    change_type: ChangeType,
)
    requires
        alv_uniq(tl_v(old(tl)@)),
    ensures
        alv_uniq(tl_v(final(tl)@)),
        tl_v(final(tl)@) == tl_add_all(
            tl_v(old(tl)@),
            entries_v(m@),
            ci_v(*instant),
            change_type,
        ),
{
    let ghost iv = ci_v(*instant);
    let ghost mv = entries_v(m@);
    proof {
        assert(mv.skip(0) =~= mv);
    }
    let n = m.len();
    let mut i: usize = 0;
    while i < n
        invariant
            n == m@.len(),
            i <= n,
            mv == entries_v(m@),
            iv == ci_v(*instant),
            alv_uniq(tl_v(tl@)),
            tl_add_all(tl_v(tl@), mv.skip(i as int), iv, change_type) == tl_add_all(
                tl_v(old(tl)@),
                mv,
                iv,
                change_type,
            ),
        decreases n - i,
    {
        proof {
            lemma_entries_v(m@);
            assert(mv.skip(i as int)[0] == mv[i as int]);
            assert(mv.skip(i as int).skip(1) =~= mv.skip(i as int + 1));
        }
        let key = m[i].0.clone();
        let inst = clone_instant(instant);
        update_change_record_entry(tl, key, inst, change_type);
        i += 1;
    }
    proof {
        lemma_entries_v(m@);
        assert(mv.skip(n as int) =~= Seq::empty());
    }
}

/// The old side of a modified delta folded in: a key missing on the new
/// side is removed; a key present with an unequal value is modified; an
/// equal value yields no event.
pub open spec fn tl_old_side(
    t: Seq<(Seq<char>, (Seq<(Seq<char>, i64)>, Seq<(Seq<char>, i64)>, Seq<(Seq<char>, i64)>))>,
    old_entries: Seq<(Seq<char>, JsonValue)>,
    new_map: Seq<(Seq<char>, JsonValue)>,
    inst: (Seq<char>, i64),
) -> Seq<(Seq<char>, (Seq<(Seq<char>, i64)>, Seq<(Seq<char>, i64)>, Seq<(Seq<char>, i64)>))>
    decreases old_entries.len(),
{
    if old_entries.len() == 0 {
        t
    } else {
        let t1 = if !alv_has(new_map, old_entries[0].0) {
            tl_put_event(t, old_entries[0].0, inst, ChangeType::Removed)
        } else if !jv_eq(old_entries[0].1, alv_get(new_map, old_entries[0].0)) {
            tl_put_event(t, old_entries[0].0, inst, ChangeType::Modified)
        } else {
            t
        };
        tl_old_side(t1, old_entries.skip(1), new_map, inst)
    }
}

/// The new side of a modified delta folded in: a key absent on the old
/// side is added.
pub open spec fn tl_new_side(
    t: Seq<(Seq<char>, (Seq<(Seq<char>, i64)>, Seq<(Seq<char>, i64)>, Seq<(Seq<char>, i64)>))>,
    new_entries: Seq<(Seq<char>, JsonValue)>,
    old_map: Seq<(Seq<char>, JsonValue)>,
    inst: (Seq<char>, i64),
) -> Seq<(Seq<char>, (Seq<(Seq<char>, i64)>, Seq<(Seq<char>, i64)>, Seq<(Seq<char>, i64)>))>
    decreases new_entries.len(),
{
    if new_entries.len() == 0 {
        t
    } else {
        let t1 = if !alv_has(old_map, new_entries[0].0) {
            tl_put_event(t, new_entries[0].0, inst, ChangeType::Added)
        } else {
            t
        };
        tl_new_side(t1, new_entries.skip(1), old_map, inst)
    }
}

/// Classifies every key of a modified delta and appends its events:
/// removed and modified from the old side, then added from the new side.
pub fn apply_modified(
    tl: &mut PathTimeline,
    old_m: &RecordMap,
    new_m: &RecordMap,
    instant: &ChangeInstant,
)
    requires
        alv_uniq(tl_v(old(tl)@)),
        alv_uniq(entries_v(new_m@)),
        forall|t: int| 0 <= t < old_m@.len() ==> jv_wf((#[trigger] old_m@[t]).1),
        forall|t: int| 0 <= t < new_m@.len() ==> jv_wf((#[trigger] new_m@[t]).1),
    ensures
        alv_uniq(tl_v(final(tl)@)),
        tl_v(final(tl)@) == tl_new_side(
            tl_old_side(tl_v(old(tl)@), entries_v(old_m@), entries_v(new_m@), ci_v(*instant)),
            entries_v(new_m@),
            entries_v(old_m@),
            ci_v(*instant),
        ),
{
    let ghost iv = ci_v(*instant);
    let ghost ov = entries_v(old_m@);
    let ghost nv = entries_v(new_m@);
    let ghost mid = tl_old_side(tl_v(old(tl)@), ov, nv, iv);
    proof {
        lemma_entries_v(old_m@);
        lemma_entries_v(new_m@);
    }
    proof {
        assert(ov.skip(0) =~= ov);
    }
    let n_old = old_m.len();
    let mut i: usize = 0;
    while i < n_old
        invariant
            n_old == old_m@.len(),
            i <= n_old,
            ov == entries_v(old_m@),
            nv == entries_v(new_m@),
            iv == ci_v(*instant),
            mid == tl_old_side(tl_v(old(tl)@), ov, nv, iv),
            alv_uniq(nv),
            forall|t: int| 0 <= t < old_m@.len() ==> jv_wf((#[trigger] old_m@[t]).1),
            forall|t: int| 0 <= t < new_m@.len() ==> jv_wf((#[trigger] new_m@[t]).1),
            alv_uniq(tl_v(tl@)),
            tl_old_side(tl_v(tl@), ov.skip(i as int), nv, iv) == mid,
        decreases n_old - i,
    {
        proof {
            lemma_entries_v(old_m@);
            lemma_entries_v(new_m@);
            assert(ov.skip(i as int)[0] == ov[i as int]);
            assert(ov.skip(i as int).skip(1) =~= ov.skip(i as int + 1));
        }
        match assoc_find(new_m, &old_m[i].0) {
            None => {
                proof {
                    assert(!alv_has(nv, ov[i as int].0));
                }
                let key = old_m[i].0.clone();
                let inst = clone_instant(instant);
                update_change_record_entry(tl, key, inst, ChangeType::Removed);
            },
            Some(j) => {
                proof {
                    lemma_alv_first(nv, ov[i as int].0, j as int);
                    assert(alv_get(nv, ov[i as int].0) == new_m@[j as int].1);
                    assert(jv_wf(old_m@[i as int].1));
                    assert(jv_wf(new_m@[j as int].1));
                }
                if deep_diff_json(&old_m[i].1, &new_m[j].1) {
                    let key = old_m[i].0.clone();
                    let inst = clone_instant(instant);
                    update_change_record_entry(tl, key, inst, ChangeType::Modified);
                }
            },
        }
        i += 1;
    }
    proof {
        assert(ov.skip(n_old as int) =~= Seq::empty());
        assert(tl_v(tl@) == mid);
    }
    proof {
        assert(nv.skip(0) =~= nv);
    }
    let n_new = new_m.len();
    let mut k: usize = 0;
    while k < n_new
        invariant
            n_new == new_m@.len(),
            k <= n_new,
            ov == entries_v(old_m@),
            nv == entries_v(new_m@),
            iv == ci_v(*instant),
            alv_uniq(tl_v(tl@)),
            tl_new_side(tl_v(tl@), nv.skip(k as int), ov, iv) == tl_new_side(mid, nv, ov, iv),
        decreases n_new - k,
    {
        proof {
            lemma_entries_v(old_m@);
            lemma_entries_v(new_m@);
            assert(nv.skip(k as int)[0] == nv[k as int]);
            assert(nv.skip(k as int).skip(1) =~= nv.skip(k as int + 1));
        }
        match assoc_find(old_m, &new_m[k].0) {
            None => {
                proof {
                    assert(!alv_has(ov, nv[k as int].0));
                }
                let key = new_m[k].0.clone();
                let inst = clone_instant(instant);
                update_change_record_entry(tl, key, inst, ChangeType::Added);
            },
            Some(j) => {
                proof {
                    assert(ov[j as int].0 == nv[k as int].0);
                    assert(alv_has(ov, nv[k as int].0));
                }
            },
        }
        k += 1;
    }
    proof {
        assert(nv.skip(n_new as int) =~= Seq::empty());
    }
}

/// One selected delta of a commit step, carrying the raw content the
/// classification needs.
pub enum DeltaWork {
    Added { path: String, new_bytes: Vec<u8> },
    Deleted { path: String, old_bytes: Vec<u8> },
    Modified { path: String, old_bytes: Vec<u8>, new_bytes: Vec<u8> },
}

/// The change aggregator: per-path timelines, the lookahead cache, and the
/// id of the commit processed last.
///
/// The cache offers a deleted path's record map to the following step as a
/// ready-made new side.  Its reset rule clears it whenever the step's
/// commit differs from the one processed last — which holds on every step
/// of a walk, since no commit is processed twice — so a cached map is
/// never read back.  The rule is kept as is rather than repaired, so that
/// aggregation results stay exactly what the walk computes without it.
pub struct Aggregator {
    pub primary_key: String,
    pub records: Vec<(String, PathTimeline)>,
    pub cache: Vec<(String, RecordMap)>,
    pub prev_id: Option<String>,
}

/// View of the per-path timelines.
pub open spec fn recs_v(rs: Seq<(String, PathTimeline)>) -> Seq<
    (Seq<char>, Seq<(Seq<char>, (Seq<(Seq<char>, i64)>, Seq<(Seq<char>, i64)>, Seq<(Seq<char>, i64)>))>),
> {
    rs.map_values(|p: (String, PathTimeline)| (p.0@, tl_v(p.1@)))
}

/// The view is pointwise.
pub proof fn lemma_recs_v(s: Seq<(String, PathTimeline)>)
    ensures
        recs_v(s).len() == s.len(),
        forall|t: int| 0 <= t < s.len() ==> (#[trigger] recs_v(s)[t]) == (s[t].0@, tl_v(s[t].1@)),
        forall|t: int| 0 <= t < s.len() ==> key_at(s, t) == (#[trigger] recs_v(s)[t]).0,
{
}

/// View of the cache.
pub open spec fn cache_v(cs: Seq<(String, RecordMap)>) -> Seq<
    (Seq<char>, Seq<(Seq<char>, JsonValue)>),
> {
    cs.map_values(|p: (String, RecordMap)| (p.0@, entries_v(p.1@)))
}

/// The view is pointwise.
pub proof fn lemma_cache_v(s: Seq<(String, RecordMap)>)
    ensures
        cache_v(s).len() == s.len(),
        forall|t: int|
            0 <= t < s.len() ==> (#[trigger] cache_v(s)[t]) == (s[t].0@, entries_v(s[t].1@)),
        forall|t: int| 0 <= t < s.len() ==> key_at(s, t) == (#[trigger] cache_v(s)[t]).0,
{
}

/// View of the whole aggregator.
pub struct AggView {
    pub recs: Seq<
        (Seq<char>, Seq<(Seq<char>, (Seq<(Seq<char>, i64)>, Seq<(Seq<char>, i64)>, Seq<(Seq<char>, i64)>))>),
    >,
    pub cache: Seq<(Seq<char>, Seq<(Seq<char>, JsonValue)>)>,
    pub prev: Option<Seq<char>>,
}

pub open spec fn agg_v(a: Aggregator) -> AggView {
    AggView {
        recs: recs_v(a.records@),
        cache: cache_v(a.cache@),
        prev: match a.prev_id {
            Some(s) => Some(s@),
            None => None,
        },
    }
}

/// Well-formed timelines: path keys unique, each timeline's keys unique.
pub open spec fn recs_wf(
    rs: Seq<
        (Seq<char>, Seq<(Seq<char>, (Seq<(Seq<char>, i64)>, Seq<(Seq<char>, i64)>, Seq<(Seq<char>, i64)>))>),
    >,
) -> bool {
    &&& alv_uniq(rs)
    &&& forall|i: int| 0 <= i < rs.len() ==> alv_uniq((#[trigger] rs[i]).1)
}

/// Well-formed cache: path keys unique, each cached map well formed.
pub open spec fn cache_wf(c: Seq<(Seq<char>, Seq<(Seq<char>, JsonValue)>)>) -> bool {
    &&& alv_uniq(c)
    &&& forall|i: int| 0 <= i < c.len() ==> alv_uniq((#[trigger] c[i]).1)
    &&& forall|i: int, j: int|
        0 <= i < c.len() && 0 <= j < c[i].1.len() ==> jv_wf((#[trigger] c[i].1[j]).1)
}

/// The aggregator's invariant.
pub open spec fn agg_wf(a: Aggregator) -> bool {
    &&& recs_wf(recs_v(a.records@))
    &&& cache_wf(cache_v(a.cache@))
}

/// A fresh aggregator for the given primary-key field.
pub fn new_aggregator(primary_key: String) -> (r: Aggregator)
    ensures
        agg_wf(r),
        r.primary_key == primary_key,
        agg_v(r).recs == Seq::<(Seq<char>, Seq<(Seq<char>, (Seq<(Seq<char>, i64)>, Seq<(Seq<char>, i64)>, Seq<(Seq<char>, i64)>))>)>::empty(),
        agg_v(r).cache == Seq::<(Seq<char>, Seq<(Seq<char>, JsonValue)>)>::empty(),
        agg_v(r).prev is None,
{
    let r = Aggregator {
        primary_key,
        records: Vec::new(),
        cache: Vec::new(),
        prev_id: None,
    };
    proof {
        assert(recs_v(r.records@) =~= Seq::<
            (Seq<char>, Seq<(Seq<char>, (Seq<(Seq<char>, i64)>, Seq<(Seq<char>, i64)>, Seq<(Seq<char>, i64)>))>),
        >::empty());
        assert(cache_v(r.cache@) =~= Seq::<(Seq<char>, Seq<(Seq<char>, JsonValue)>)>::empty());
    }
    r
}

/// The running state of one commit step.
pub struct StepView {
    pub recs: Seq<
        (Seq<char>, Seq<(Seq<char>, (Seq<(Seq<char>, i64)>, Seq<(Seq<char>, i64)>, Seq<(Seq<char>, i64)>))>),
    >,
    pub cache: Seq<(Seq<char>, Seq<(Seq<char>, JsonValue)>)>,
    pub next_cache: Seq<(Seq<char>, Seq<(Seq<char>, JsonValue)>)>,
}

/// A path's timeline exists before events are folded in; a path first
/// touched by this delta starts empty.
pub open spec fn recs_ensure(
    rs: Seq<
        (Seq<char>, Seq<(Seq<char>, (Seq<(Seq<char>, i64)>, Seq<(Seq<char>, i64)>, Seq<(Seq<char>, i64)>))>),
    >,
    p: Seq<char>,
) -> Seq<
    (Seq<char>, Seq<(Seq<char>, (Seq<(Seq<char>, i64)>, Seq<(Seq<char>, i64)>, Seq<(Seq<char>, i64)>))>),
> {
    if alv_has(rs, p) {
        rs
    } else {
        al_put(rs, p, Seq::empty())
    }
}

/// What one selected delta does to the step state, or the fault that
/// aborts the run.  The new side of an added or modified delta comes from
/// the cache when the path is cached, else from its bytes; the old side is
/// always extracted afresh; a deleted delta offers its old map to the next
/// step's cache.
pub open spec fn delta_spec(
    st: StepView,
    d: DeltaWork,
    commit_id: String,
    ts: i64,
    pk: Seq<char>,
) -> Result<StepView, HistoryError> {
    let inst = (commit_id@, ts);
    match d {
        DeltaWork::Added { path, new_bytes } => {
            let recs1 = recs_ensure(st.recs, path@);
            let nm = if alv_has(st.cache, path@) {
                Some(alv_get(st.cache, path@))
            } else {
                records_of_bytes(new_bytes@, pk)
            };
            match nm {
                None => Err(HistoryError::ContentFormat { commit: commit_id, path }),
                Some(m) => Ok(
                    StepView {
                        recs: al_put(
                            recs1,
                            path@,
                            tl_add_all(alv_get(recs1, path@), m, inst, ChangeType::Added),
                        ),
                        cache: al_del(st.cache, path@),
                        next_cache: st.next_cache,
                    },
                ),
            }
        },
        DeltaWork::Deleted { path, old_bytes } => {
            let recs1 = recs_ensure(st.recs, path@);
            match records_of_bytes(old_bytes@, pk) {
                None => Err(HistoryError::ContentFormat { commit: commit_id, path }),
                Some(m) => Ok(
                    StepView {
                        recs: al_put(
                            recs1,
                            path@,
                            tl_add_all(alv_get(recs1, path@), m, inst, ChangeType::Removed),
                        ),
                        cache: st.cache,
                        next_cache: al_put(st.next_cache, path@, m),
                    },
                ),
            }
        },
        DeltaWork::Modified { path, old_bytes, new_bytes } => {
            let recs1 = recs_ensure(st.recs, path@);
            let nm = if alv_has(st.cache, path@) {
                Some(alv_get(st.cache, path@))
            } else {
                records_of_bytes(new_bytes@, pk)
            };
            match nm {
                None => Err(HistoryError::ContentFormat { commit: commit_id, path }),
                Some(newm) => match records_of_bytes(old_bytes@, pk) {
                    None => Err(HistoryError::ContentFormat { commit: commit_id, path }),
                    Some(oldm) => Ok(
                        StepView {
                            recs: al_put(
                                recs1,
                                path@,
                                tl_new_side(
                                    tl_old_side(alv_get(recs1, path@), oldm, newm, inst),
                                    newm,
                                    oldm,
                                    inst,
                                ),
                            ),
                            cache: al_del(st.cache, path@),
                            next_cache: st.next_cache,
                        },
                    ),
                },
            }
        },
    }
}

/// The deltas of one step folded in order, stopping at the first fault.
pub open spec fn deltas_fold(
    st: StepView,
    work: Seq<DeltaWork>,
    commit_id: String,
    ts: i64,
    pk: Seq<char>,
) -> Result<StepView, HistoryError>
    decreases work.len(),
{
    if work.len() == 0 {
        Ok(st)
    } else {
        match delta_spec(st, work[0], commit_id, ts, pk) {
            Err(e) => Err(e),
            Ok(st1) => deltas_fold(st1, work.skip(1), commit_id, ts, pk),
        }
    }
}

/// The cache survives into a step only when the step's commit is the one
/// processed last; along a walk the two always differ, so it is cleared.
pub open spec fn cache_after_reset(a: AggView, commit: Seq<char>) -> Seq<
    (Seq<char>, Seq<(Seq<char>, JsonValue)>),
> {
    if a.prev == Some(commit) {
        a.cache
    } else {
        Seq::empty()
    }
}

/// One whole commit step: reset the cache, fold every delta, then adopt
/// the deleted-side maps as the next cache and remember the commit.
pub open spec fn step_spec(
    a: AggView,
    commit_id: String,
    ts: i64,
    work: Seq<DeltaWork>,
    pk: Seq<char>,
) -> Result<AggView, HistoryError> {
    let st0 = StepView {
        recs: a.recs,
        cache: cache_after_reset(a, commit_id@),
        next_cache: Seq::empty(),
    };
    match deltas_fold(st0, work, commit_id, ts, pk) {
        Err(e) => Err(e),
        Ok(st) => Ok(AggView { recs: st.recs, cache: st.next_cache, prev: Some(commit_id@) }),
    }
}

/// The timeline entry for `path`, created empty when the path is new;
/// the result indexes the first (and only) entry carrying the path.
fn ensure_timeline(records: &mut Vec<(String, PathTimeline)>, path: &String) -> (ti: usize)
    requires
        recs_wf(recs_v(old(records)@)),
    ensures
        recs_wf(recs_v(final(records)@)),
        recs_v(final(records)@) == recs_ensure(recs_v(old(records)@), path@),
        (ti as int) < final(records)@.len(),
        final(records)@[ti as int].0@ == path@,
        forall|t: int| 0 <= t < ti ==> key_at(final(records)@, t) != path@,
{
    proof {
        lemma_recs_v(old(records)@);
    }
    match assoc_find(records, path) {
        Some(j) => {
            proof {
                assert(recs_v(records@)[j as int].0 == path@);
                assert(alv_has(recs_v(records@), path@));
            }
            j
        },
        None => {
            let ghost old_r = records@;
            records.push((path.clone(), Vec::new()));
            let ti = records.len() - 1;
            proof {
                lemma_recs_v(old_r);
                lemma_recs_v(records@);
                assert(forall|t: int|
                    0 <= t < recs_v(old_r).len() ==> recs_v(old_r)[t].0 != path@);
                assert(!alv_has(recs_v(old_r), path@));
                assert(tl_v(records@[ti as int].1@) =~= Seq::empty());
                lemma_al_put_append(recs_v(old_r), path@, tl_v(records@[ti as int].1@));
                assert(recs_v(records@) =~= recs_v(old_r).push(
                    (path@, tl_v(records@[ti as int].1@)),
                ));
                assert(recs_v(records@) == recs_ensure(recs_v(old_r), path@));
                assert forall|x: int, y: int|
                    0 <= x < y < recs_v(records@).len() implies recs_v(records@)[x].0 != recs_v(
                    records@,
                )[y].0 by {
                    if y < recs_v(records@).len() - 1 {
                        assert(recs_v(old_r)[x].0 != recs_v(old_r)[y].0);
                    } else {
                        assert(recs_v(records@)[x].0 == recs_v(old_r)[x].0);
                    }
                }
                assert forall|t: int| 0 <= t < ti implies key_at(records@, t) != path@ by {
                    assert(key_at(records@, t) == recs_v(records@)[t].0);
                    assert(recs_v(records@)[t].0 == recs_v(old_r)[t].0);
                }
            }
            ti
        },
    }
}

/// Takes a cached record map out of the cache, if the path has one.
fn cache_take(cache: &mut Vec<(String, RecordMap)>, path: &String) -> (r: Option<RecordMap>)
    requires
        cache_wf(cache_v(old(cache)@)),
    ensures
        cache_wf(cache_v(final(cache)@)),
        cache_v(final(cache)@) == al_del(cache_v(old(cache)@), path@),
        match r {
            Some(m) => {
                &&& alv_has(cache_v(old(cache)@), path@)
                &&& entries_v(m@) == alv_get(cache_v(old(cache)@), path@)
                &&& alv_uniq(entries_v(m@))
                &&& forall|t: int| 0 <= t < m@.len() ==> jv_wf((#[trigger] m@[t]).1)
            },
            None => !alv_has(cache_v(old(cache)@), path@),
        },
{
    proof {
        lemma_cache_v(old(cache)@);
    }
    match assoc_find(cache, path) {
        Some(j) => {
            let ghost old_c = cache@;
            let entry = cache.remove(j);
            let m = entry.1;
            proof {
                lemma_cache_v(old_c);
                lemma_cache_v(cache@);
                lemma_entries_v(m@);
                assert(cache_v(old_c)[j as int].0 == path@);
                lemma_alv_first(cache_v(old_c), path@, j as int);
                lemma_al_del_found(cache_v(old_c), path@, j as int);
                assert(cache_v(cache@) =~= cache_v(old_c).take(j as int) + cache_v(old_c).skip(
                    j as int + 1,
                ));
                assert(entries_v(m@) == cache_v(old_c)[j as int].1);
                assert(forall|t: int|
                    0 <= t < m@.len() ==> (#[trigger] m@[t]).1 == entries_v(m@)[t].1);
            }
            Some(m)
        },
        None => {
            proof {
                assert(forall|t: int|
                    0 <= t < cache_v(cache@).len() ==> cache_v(cache@)[t].0 != path@);
                assert(!alv_has(cache_v(cache@), path@));
                lemma_al_del_absent(cache_v(cache@), path@);
            }
            None
        },
    }
}

/// Binds `path` to a record map in a cache, replacing any earlier binding.
fn cache_put(cache: &mut Vec<(String, RecordMap)>, path: String, m: RecordMap)
    requires
        cache_wf(cache_v(old(cache)@)),
        alv_uniq(entries_v(m@)),
        forall|t: int| 0 <= t < m@.len() ==> jv_wf((#[trigger] m@[t]).1),
    ensures
        cache_wf(cache_v(final(cache)@)),
        cache_v(final(cache)@) == al_put(cache_v(old(cache)@), path@, entries_v(m@)),
{
    let ghost old_c = cache@;
    let ghost pv = path@;
    let ghost mv = entries_v(m@);
    proof {
        lemma_cache_v(old_c);
        lemma_entries_v(m@);
    }
    match assoc_find(cache, &path) {
        Some(j) => {
            cache.remove(j);
            cache.insert(j, (path, m));
            proof {
                lemma_cache_v(cache@);
                assert(cache_v(cache@) =~= cache_v(old_c).update(j as int, (pv, mv)));
                assert(cache_v(old_c)[j as int].0 == pv);
                lemma_al_put_replace(cache_v(old_c), pv, mv, j as int);
                assert forall|x: int, y: int|
                    0 <= x < y < cache_v(cache@).len() implies cache_v(cache@)[x].0 != cache_v(
                    cache@,
                )[y].0 by {
                    assert(cache_v(old_c)[x].0 != cache_v(old_c)[y].0);
                }
            }
        },
        None => {
            cache.push((path, m));
            proof {
                lemma_cache_v(cache@);
                assert(forall|t: int|
                    0 <= t < cache_v(old_c).len() ==> cache_v(old_c)[t].0 != pv);
                lemma_al_put_append(cache_v(old_c), pv, mv);
                assert(cache_v(cache@) =~= cache_v(old_c).push((pv, mv)));
                assert forall|x: int, y: int|
                    0 <= x < y < cache_v(cache@).len() implies cache_v(cache@)[x].0 != cache_v(
                    cache@,
                )[y].0 by {
                    if y < cache_v(cache@).len() - 1 {
                        assert(cache_v(old_c)[x].0 != cache_v(old_c)[y].0);
                    } else {
                        assert(cache_v(cache@)[x].0 == cache_v(old_c)[x].0);
                    }
                }
            }
        },
    }
}

/// Applies one selected delta: exactly what `delta_spec` says, against
/// the current timelines, cache and next-step cache.
#[verifier::rlimit(100)]
#[verifier::loop_isolation(false)]
fn process_one_delta(
    agg: &mut Aggregator,
    next_cache: &mut Vec<(String, RecordMap)>,
    d: DeltaWork,
    commit_id: &String,
    timestamp: i64,
) -> (r: Result<(), HistoryError>)
    requires
        recs_wf(recs_v(old(agg).records@)),
        cache_wf(cache_v(old(agg).cache@)),
        cache_wf(cache_v(old(next_cache)@)),
    ensures
        final(agg).primary_key == old(agg).primary_key,
        final(agg).prev_id == old(agg).prev_id,
        match delta_spec(
            StepView {
                recs: recs_v(old(agg).records@),
                cache: cache_v(old(agg).cache@),
                next_cache: cache_v(old(next_cache)@),
            },
            d,
            *commit_id,
            timestamp,
            old(agg).primary_key@,
        ) {
            Ok(st) => {
                &&& r is Ok
                &&& recs_wf(recs_v(final(agg).records@))
                &&& cache_wf(cache_v(final(agg).cache@))
                &&& cache_wf(cache_v(final(next_cache)@))
                &&& recs_v(final(agg).records@) == st.recs
                &&& cache_v(final(agg).cache@) == st.cache
                &&& cache_v(final(next_cache)@) == st.next_cache
            },
            Err(e) => r == Err::<(), HistoryError>(e),
        },
{
    let ghost cur = StepView {
        recs: recs_v(agg.records@),
        cache: cache_v(agg.cache@),
        next_cache: cache_v(next_cache@),
    };
    let ghost gd = d;
    let ghost pkv = agg.primary_key@;
    match d {
        DeltaWork::Added { path, new_bytes } => {
            let ghost gpath = path;
            let ghost gbytes = new_bytes;
            proof {
                assert(gd->Added_path == gpath);
                assert(gd->Added_new_bytes == gbytes);
            }
            let ti = ensure_timeline(&mut agg.records, &path);
            let ghost recs1 = recs_v(agg.records@);
            proof {
                assert(recs1 == recs_ensure(cur.recs, gpath@));
            }
            let nm = match cache_take(&mut agg.cache, &path) {
                Some(m) => m,
                None => match get_json_data(new_bytes.as_slice(), &agg.primary_key) {
                    Ok(m) => m,
                    Err(_) => {
                        proof {
                            assert(delta_spec(cur, gd, *commit_id, timestamp, pkv) == Err::<
                                StepView,
                                HistoryError,
                            >(HistoryError::ContentFormat { commit: *commit_id, path: gpath }));
                        }
                        return Err(
                            HistoryError::ContentFormat { commit: commit_id.clone(), path },
                        );
                    },
                },
            };
            proof {
                assert(Some(entries_v(nm@)) == (if alv_has(cur.cache, gpath@) {
                    Some(alv_get(cur.cache, gpath@))
                } else {
                    records_of_bytes(gbytes@, pkv)
                }));
                assert(cache_v(agg.cache@) == al_del(cur.cache, gpath@));
            }
            let instant = ChangeInstant { commit: commit_id.clone(), timestamp };
            let ghost pre_recs = agg.records@;
            let (pkey, mut tl) = agg.records.remove(ti);
            let ghost tl0 = tl@;
            proof {
                lemma_recs_v(pre_recs);
                lemma_alv_first(recs1, gpath@, ti as int);
                assert(tl_v(tl0) == alv_get(recs1, gpath@));
                assert(alv_uniq(tl_v(tl0)));
            }
            apply_events(&mut tl, &nm, &instant, ChangeType::Added);
            agg.records.insert(ti, (pkey, tl));
            proof {
                lemma_recs_v(agg.records@);
                let tlv = tl_v(agg.records@[ti as int].1@);
                assert(recs_v(agg.records@) =~= recs1.update(ti as int, (gpath@, tlv)));
                lemma_al_put_replace(recs1, gpath@, tlv, ti as int);
                assert(tlv == tl_add_all(
                    alv_get(recs1, gpath@),
                    entries_v(nm@),
                    (commit_id@, timestamp),
                    ChangeType::Added,
                ));
                assert(delta_spec(cur, gd, *commit_id, timestamp, pkv) == Ok::<
                    StepView,
                    HistoryError,
                >(
                    StepView {
                        recs: recs_v(agg.records@),
                        cache: cache_v(agg.cache@),
                        next_cache: cache_v(next_cache@),
                    },
                ));
                assert forall|x: int, y: int|
                    0 <= x < y < recs_v(agg.records@).len() implies recs_v(agg.records@)[x].0
                    != recs_v(agg.records@)[y].0 by {
                    assert(recs1[x].0 != recs1[y].0);
                }
                assert forall|i: int|
                    0 <= i < recs_v(agg.records@).len() implies alv_uniq(
                    (#[trigger] recs_v(agg.records@)[i]).1,
                ) by {
                    if i != ti as int {
                        assert(recs_v(agg.records@)[i] == recs1[i]);
                        assert(alv_uniq(recs1[i].1));
                    }
                }
            }
            Ok(())
        },
        DeltaWork::Deleted { path, old_bytes } => {
            let ghost gpath = path;
            let ghost gbytes = old_bytes;
            proof {
                assert(gd->Deleted_path == gpath);
                assert(gd->Deleted_old_bytes == gbytes);
            }
            let ti = ensure_timeline(&mut agg.records, &path);
            let ghost recs1 = recs_v(agg.records@);
            proof {
                assert(recs1 == recs_ensure(cur.recs, gpath@));
            }
            let om = match get_json_data(old_bytes.as_slice(), &agg.primary_key) {
                Ok(m) => {
                    proof {
                        lemma_entries_v(m@);
                        assert forall|x: int, y: int|
                            0 <= x < y < entries_v(m@).len() implies entries_v(m@)[x].0
                            != entries_v(m@)[y].0 by {
                            assert(key_at(m@, x) != key_at(m@, y));
                        }
                    }
                    m
                },
                Err(_) => {
                    proof {
                        assert(delta_spec(cur, gd, *commit_id, timestamp, pkv) == Err::<
                            StepView,
                            HistoryError,
                        >(HistoryError::ContentFormat { commit: *commit_id, path: gpath }));
                    }
                    return Err(HistoryError::ContentFormat { commit: commit_id.clone(), path });
                },
            };
            proof {
                assert(Some(entries_v(om@)) == records_of_bytes(gbytes@, pkv));
            }
            let instant = ChangeInstant { commit: commit_id.clone(), timestamp };
            let ghost pre_recs = agg.records@;
            let (pkey, mut tl) = agg.records.remove(ti);
            let ghost tl0 = tl@;
            proof {
                lemma_recs_v(pre_recs);
                lemma_alv_first(recs1, gpath@, ti as int);
                assert(tl_v(tl0) == alv_get(recs1, gpath@));
                assert(alv_uniq(tl_v(tl0)));
            }
            apply_events(&mut tl, &om, &instant, ChangeType::Removed);
            agg.records.insert(ti, (pkey, tl));
            cache_put(next_cache, path, om);
            proof {
                lemma_recs_v(agg.records@);
                let tlv = tl_v(agg.records@[ti as int].1@);
                assert(recs_v(agg.records@) =~= recs1.update(ti as int, (gpath@, tlv)));
                lemma_al_put_replace(recs1, gpath@, tlv, ti as int);
                assert(tlv == tl_add_all(
                    alv_get(recs1, gpath@),
                    entries_v(om@),
                    (commit_id@, timestamp),
                    ChangeType::Removed,
                ));
                assert(delta_spec(cur, gd, *commit_id, timestamp, pkv) == Ok::<
                    StepView,
                    HistoryError,
                >(
                    StepView {
                        recs: recs_v(agg.records@),
                        cache: cache_v(agg.cache@),
                        next_cache: cache_v(next_cache@),
                    },
                ));
                assert forall|x: int, y: int|
                    0 <= x < y < recs_v(agg.records@).len() implies recs_v(agg.records@)[x].0
                    != recs_v(agg.records@)[y].0 by {
                    assert(recs1[x].0 != recs1[y].0);
                }
                assert forall|i: int|
                    0 <= i < recs_v(agg.records@).len() implies alv_uniq(
                    (#[trigger] recs_v(agg.records@)[i]).1,
                ) by {
                    if i != ti as int {
                        assert(recs_v(agg.records@)[i] == recs1[i]);
                        assert(alv_uniq(recs1[i].1));
                    }
                }
            }
            Ok(())
        },
        DeltaWork::Modified { path, old_bytes, new_bytes } => {
            let ghost gpath = path;
            let ghost gob = old_bytes;
            let ghost gnb = new_bytes;
            proof {
                assert(gd->Modified_path == gpath);
                assert(gd->Modified_old_bytes == gob);
                assert(gd->Modified_new_bytes == gnb);
            }
            let ti = ensure_timeline(&mut agg.records, &path);
            let ghost recs1 = recs_v(agg.records@);
            proof {
                assert(recs1 == recs_ensure(cur.recs, gpath@));
            }
            let nm = match cache_take(&mut agg.cache, &path) {
                Some(m) => m,
                None => match get_json_data(new_bytes.as_slice(), &agg.primary_key) {
                    Ok(m) => {
                        proof {
                            lemma_entries_v(m@);
                            assert forall|x: int, y: int|
                                0 <= x < y < entries_v(m@).len() implies entries_v(m@)[x].0
                                != entries_v(m@)[y].0 by {
                                assert(key_at(m@, x) != key_at(m@, y));
                            }
                        }
                        m
                    },
                    Err(_) => {
                        proof {
                            assert(delta_spec(cur, gd, *commit_id, timestamp, pkv) == Err::<
                                StepView,
                                HistoryError,
                            >(HistoryError::ContentFormat { commit: *commit_id, path: gpath }));
                        }
                        return Err(
                            HistoryError::ContentFormat { commit: commit_id.clone(), path },
                        );
                    },
                },
            };
            let om = match get_json_data(old_bytes.as_slice(), &agg.primary_key) {
                Ok(m) => m,
                Err(_) => {
                    proof {
                        assert(Some(entries_v(nm@)) == (if alv_has(cur.cache, gpath@) {
                            Some(alv_get(cur.cache, gpath@))
                        } else {
                            records_of_bytes(gnb@, pkv)
                        }));
                        assert(delta_spec(cur, gd, *commit_id, timestamp, pkv) == Err::<
                            StepView,
                            HistoryError,
                        >(HistoryError::ContentFormat { commit: *commit_id, path: gpath }));
                    }
                    return Err(HistoryError::ContentFormat { commit: commit_id.clone(), path });
                },
            };
            proof {
                assert(Some(entries_v(nm@)) == (if alv_has(cur.cache, gpath@) {
                    Some(alv_get(cur.cache, gpath@))
                } else {
                    records_of_bytes(gnb@, pkv)
                }));
                assert(Some(entries_v(om@)) == records_of_bytes(gob@, pkv));
                assert(cache_v(agg.cache@) == al_del(cur.cache, gpath@));
            }
            let instant = ChangeInstant { commit: commit_id.clone(), timestamp };
            let ghost pre_recs = agg.records@;
            let (pkey, mut tl) = agg.records.remove(ti);
            let ghost tl0 = tl@;
            proof {
                lemma_recs_v(pre_recs);
                lemma_alv_first(recs1, gpath@, ti as int);
                assert(tl_v(tl0) == alv_get(recs1, gpath@));
                assert(alv_uniq(tl_v(tl0)));
            }
            apply_modified(&mut tl, &om, &nm, &instant);
            agg.records.insert(ti, (pkey, tl));
            proof {
                lemma_recs_v(agg.records@);
                let tlv = tl_v(agg.records@[ti as int].1@);
                assert(recs_v(agg.records@) =~= recs1.update(ti as int, (gpath@, tlv)));
                lemma_al_put_replace(recs1, gpath@, tlv, ti as int);
                assert(tlv == tl_new_side(
                    tl_old_side(
                        alv_get(recs1, gpath@),
                        entries_v(om@),
                        entries_v(nm@),
                        (commit_id@, timestamp),
                    ),
                    entries_v(nm@),
                    entries_v(om@),
                    (commit_id@, timestamp),
                ));
                assert(delta_spec(cur, gd, *commit_id, timestamp, pkv) == Ok::<
                    StepView,
                    HistoryError,
                >(
                    StepView {
                        recs: recs_v(agg.records@),
                        cache: cache_v(agg.cache@),
                        next_cache: cache_v(next_cache@),
                    },
                ));
                assert forall|x: int, y: int|
                    0 <= x < y < recs_v(agg.records@).len() implies recs_v(agg.records@)[x].0
                    != recs_v(agg.records@)[y].0 by {
                    assert(recs1[x].0 != recs1[y].0);
                }
                assert forall|i: int|
                    0 <= i < recs_v(agg.records@).len() implies alv_uniq(
                    (#[trigger] recs_v(agg.records@)[i]).1,
                ) by {
                    if i != ti as int {
                        assert(recs_v(agg.records@)[i] == recs1[i]);
                        assert(alv_uniq(recs1[i].1));
                    }
                }
            }
            Ok(())
        },
    }
}

/// Folds one visited commit's selected deltas into the timelines: the
/// step's events are exactly what `step_spec` says, and the first content
/// fault aborts the run with its commit and path named.
#[verifier::rlimit(60)]
#[verifier::loop_isolation(false)]
pub fn process_step(
    agg: &mut Aggregator,
    commit_id: String,
    timestamp: i64,
    work: Vec<DeltaWork>,
) -> (r: Result<(), HistoryError>)
    requires
        agg_wf(*old(agg)),
    ensures
        final(agg).primary_key == old(agg).primary_key,
        match step_spec(agg_v(*old(agg)), commit_id, timestamp, work@, old(agg).primary_key@) {
            Ok(m) => r is Ok && agg_wf(*final(agg)) && agg_v(*final(agg)) == m,
            Err(e) => r == Err::<(), HistoryError>(e),
        },
{
    let ghost all_work = work@;
    let ghost pkv = old(agg).primary_key@;
    let same = match &agg.prev_id {
        Some(p) => p.eq(&commit_id),
        None => false,
    };
    if !same {
        agg.cache = Vec::new();
        proof {
            assert(cache_v(agg.cache@) =~= Seq::<
                (Seq<char>, Seq<(Seq<char>, JsonValue)>),
            >::empty());
        }
    }
    proof {
        assert(cache_v(agg.cache@) == cache_after_reset(agg_v(*old(agg)), commit_id@));
    }
    let mut next_cache: Vec<(String, RecordMap)> = Vec::new();
    proof {
        assert(cache_v(next_cache@) =~= Seq::<(Seq<char>, Seq<(Seq<char>, JsonValue)>)>::empty());
    }
    let ghost st0 = StepView {
        recs: recs_v(agg.records@),
        cache: cache_v(agg.cache@),
        next_cache: Seq::empty(),
    };
    let mut work = work;
    while work.len() > 0
        invariant
            agg.primary_key == old(agg).primary_key,
            recs_wf(recs_v(agg.records@)),
            cache_wf(cache_v(agg.cache@)),
            cache_wf(cache_v(next_cache@)),
            deltas_fold(
                StepView {
                    recs: recs_v(agg.records@),
                    cache: cache_v(agg.cache@),
                    next_cache: cache_v(next_cache@),
                },
                work@,
                commit_id,
                timestamp,
                pkv,
            ) == deltas_fold(st0, all_work, commit_id, timestamp, pkv),
        decreases work@.len(),
    {
        let ghost pre_remaining = work@;
        let ghost cur = StepView {
            recs: recs_v(agg.records@),
            cache: cache_v(agg.cache@),
            next_cache: cache_v(next_cache@),
        };
        let d = work.remove(0);
        let ghost gd = d;
        proof {
            assert(gd == pre_remaining[0]);
            assert(work@ =~= pre_remaining.skip(1));
        }
        match process_one_delta(&mut *agg, &mut next_cache, d, &commit_id, timestamp) {
            Ok(()) => {},
            Err(e) => {
                proof {
                    assert(deltas_fold(cur, pre_remaining, commit_id, timestamp, pkv)
                        == delta_spec(cur, gd, commit_id, timestamp, pkv));
                    assert(step_spec(agg_v(*old(agg)), commit_id, timestamp, all_work, pkv)
                        == Err::<AggView, HistoryError>(e));
                }
                return Err(e);
            },
        }
    }
    proof {
        assert(deltas_fold(
            StepView {
                recs: recs_v(agg.records@),
                cache: cache_v(agg.cache@),
                next_cache: cache_v(next_cache@),
            },
            work@,
            commit_id,
            timestamp,
            pkv,
        ) == Ok::<StepView, HistoryError>(
            StepView {
                recs: recs_v(agg.records@),
                cache: cache_v(agg.cache@),
                next_cache: cache_v(next_cache@),
            },
        ));
    }
    agg.cache = next_cache;
    agg.prev_id = Some(commit_id);
    Ok(())
}

} // verus!
