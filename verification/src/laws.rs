use vstd::prelude::*;

use crate::aggregate::{cr_push, empty_cr, step_spec, tl_add_all, tl_new_side, tl_old_side,
    tl_put_event, AggView, Aggregator, ChangeType, DeltaWork};
use crate::assoc::{alv_get, alv_has, alv_uniq, lemma_al_put_elems, lemma_al_put_semantics};
use crate::errors::HistoryError;
use crate::value::{jv_eq, JsonValue};

verus! {

/// A whole run folded step by step: each element is one visited commit's
/// id, time and selected deltas, oldest input last, as the walk yields
/// them.
pub open spec fn run_spec(
    a: AggView,
    steps: Seq<(String, i64, Seq<DeltaWork>)>,
    pk: Seq<char>,
) -> Result<AggView, HistoryError>
    decreases steps.len(),
{
    if steps.len() == 0 {
        Ok(a)
    } else {
        match step_spec(a, steps[0].0, steps[0].1, steps[0].2, pk) {
            Err(e) => Err(e),
            Ok(a1) => run_spec(a1, steps.skip(1), pk),
        }
    }
}

/// Two runs over an unchanged repository with identical arguments produce
/// identical output: every stage is a function of the walked commits and
/// their deltas alone, so aggregators that start with the same view and
/// fold the same steps end with the same view, event for event.
pub proof fn lemma_runs_identical(
    a: Aggregator,
    b: Aggregator,
    steps: Seq<(String, i64, Seq<DeltaWork>)>,
)
    requires
        crate::aggregate::agg_v(a) == crate::aggregate::agg_v(b),
        a.primary_key@ == b.primary_key@,
    ensures
        run_spec(crate::aggregate::agg_v(a), steps, a.primary_key@) == run_spec(
            crate::aggregate::agg_v(b),
            steps,
            b.primary_key@,
        ),
{
}

/// What one event does to a timeline's lookups: the touched key's record
/// grows by the one instant (a fresh record for a first event), every
/// other key's record is untouched, and unique keys stay unique.
pub proof fn lemma_put_event_semantics(
    t: Seq<(Seq<char>, (Seq<(Seq<char>, i64)>, Seq<(Seq<char>, i64)>, Seq<(Seq<char>, i64)>))>,
    k: Seq<char>,
    inst: (Seq<char>, i64),
    ct: ChangeType,
)
    requires
        alv_uniq(t),
    ensures
        alv_uniq(tl_put_event(t, k, inst, ct)),
        alv_has(tl_put_event(t, k, inst, ct), k),
        alv_get(tl_put_event(t, k, inst, ct), k) == cr_push(
            if alv_has(t, k) {
                alv_get(t, k)
            } else {
                empty_cr()
            },
            inst,
            ct,
        ),
        forall|k2: Seq<char>| k2 != k ==> alv_has(tl_put_event(t, k, inst, ct), k2) == alv_has(
            t,
            k2,
        ),
        forall|k2: Seq<char>|
            k2 != k && alv_has(t, k2) ==> alv_get(tl_put_event(t, k, inst, ct), k2) == alv_get(
                t,
                k2,
            ),
{
    lemma_al_put_semantics(
        t,
        k,
        cr_push(
            if alv_has(t, k) {
                alv_get(t, k)
            } else {
                empty_cr()
            },
            inst,
            ct,
        ),
    );
}

/// Events for keys a map does not mention never change that key's record.
proof fn lemma_add_all_frame(
    t: Seq<(Seq<char>, (Seq<(Seq<char>, i64)>, Seq<(Seq<char>, i64)>, Seq<(Seq<char>, i64)>))>,
    m: Seq<(Seq<char>, JsonValue)>,
    inst: (Seq<char>, i64),
    ct: ChangeType,
    k: Seq<char>,
)
    requires
        alv_uniq(t),
        forall|x: int| 0 <= x < m.len() ==> (#[trigger] m[x]).0 != k,
        alv_has(t, k),
    ensures
        alv_uniq(tl_add_all(t, m, inst, ct)),
        alv_has(tl_add_all(t, m, inst, ct), k),
        alv_get(tl_add_all(t, m, inst, ct), k) == alv_get(t, k),
    decreases m.len(),
{
    if m.len() > 0 {
        let t1 = tl_put_event(t, m[0].0, inst, ct);
        lemma_put_event_semantics(t, m[0].0, inst, ct);
        assert(forall|x: int| 0 <= x < m.skip(1).len() ==> (#[trigger] m.skip(1)[x]) == m[x + 1]);
        lemma_add_all_frame(t1, m.skip(1), inst, ct, k);
    }
}

/// A whole single-kind delta gives each key of its map exactly one event:
/// the key's first event creates its record with that one instant, and
/// the other keys' events leave it untouched.
pub proof fn lemma_add_all_fresh_key(
    t: Seq<(Seq<char>, (Seq<(Seq<char>, i64)>, Seq<(Seq<char>, i64)>, Seq<(Seq<char>, i64)>))>,
    m: Seq<(Seq<char>, JsonValue)>,
    inst: (Seq<char>, i64),
    ct: ChangeType,
    k: Seq<char>,
)
    requires
        alv_uniq(t),
        alv_uniq(m),
        alv_has(m, k),
        !alv_has(t, k),
    ensures
        alv_uniq(tl_add_all(t, m, inst, ct)),
        alv_has(tl_add_all(t, m, inst, ct), k),
        alv_get(tl_add_all(t, m, inst, ct), k) == cr_push(empty_cr(), inst, ct),
    decreases m.len(),
{
    let e = m[0];
    let t1 = tl_put_event(t, e.0, inst, ct);
    lemma_put_event_semantics(t, e.0, inst, ct);
    assert(forall|x: int| 0 <= x < m.skip(1).len() ==> (#[trigger] m.skip(1)[x]) == m[x + 1]);
    if e.0 == k {
        assert forall|x: int| 0 <= x < m.skip(1).len() implies (#[trigger] m.skip(1)[x]).0
            != k by {
            assert(m[0].0 != m[x + 1].0);
        }
        lemma_add_all_frame(t1, m.skip(1), inst, ct, k);
    } else {
        let j = choose|j: int| 0 <= j < m.len() && m[j].0 == k;
        assert(j != 0);
        assert(m.skip(1)[j - 1].0 == k);
        assert(alv_has(m.skip(1), k));
        lemma_add_all_fresh_key(t1, m.skip(1), inst, ct, k);
    }
}

/// A record added once and never again touched has exactly one added
/// instant and empty removed and modified sequences: the added delta that
/// first mentions its key yields that single instant, and a key no later
/// map mentions is never touched again.
pub proof fn lemma_added_delta_single_instant(
    t: Seq<(Seq<char>, (Seq<(Seq<char>, i64)>, Seq<(Seq<char>, i64)>, Seq<(Seq<char>, i64)>))>,
    m: Seq<(Seq<char>, JsonValue)>,
    inst: (Seq<char>, i64),
    k: Seq<char>,
)
    requires
        alv_uniq(t),
        alv_uniq(m),
        alv_has(m, k),
        !alv_has(t, k),
    ensures
        alv_get(tl_add_all(t, m, inst, ChangeType::Added), k) == (
            seq![inst],
            Seq::<(Seq<char>, i64)>::empty(),
            Seq::<(Seq<char>, i64)>::empty(),
        ),
{
    lemma_add_all_fresh_key(t, m, inst, ChangeType::Added, k);
    assert(empty_cr().0.push(inst) =~= seq![inst]);
}

/// A record deleted with content unchanged since its last recorded value
/// produces exactly one removed event and no spurious modified event: a
/// deleted delta never compares content, so each of its keys receives one
/// removal and nothing else.
pub proof fn lemma_deleted_delta_single_removal(
    t: Seq<(Seq<char>, (Seq<(Seq<char>, i64)>, Seq<(Seq<char>, i64)>, Seq<(Seq<char>, i64)>))>,
    m: Seq<(Seq<char>, JsonValue)>,
    inst: (Seq<char>, i64),
    k: Seq<char>,
)
    requires
        alv_uniq(t),
        alv_uniq(m),
        alv_has(m, k),
        !alv_has(t, k),
    ensures
        alv_get(tl_add_all(t, m, inst, ChangeType::Removed), k) == (
            Seq::<(Seq<char>, i64)>::empty(),
            seq![inst],
            Seq::<(Seq<char>, i64)>::empty(),
        ),
{
    lemma_add_all_fresh_key(t, m, inst, ChangeType::Removed, k);
    assert(empty_cr().1.push(inst) =~= seq![inst]);
}

/// Whether a timeline holds only keys that experienced at least one
/// event: every key's record carries some instant.
pub open spec fn tl_only_event_keys(
    t: Seq<(Seq<char>, (Seq<(Seq<char>, i64)>, Seq<(Seq<char>, i64)>, Seq<(Seq<char>, i64)>))>,
) -> bool {
    forall|i: int|
        0 <= i < t.len() ==> ((#[trigger] t[i]).1.0.len() + t[i].1.1.len() + t[i].1.2.len()) > 0
}

/// One event keeps the timeline free of event-less keys: the touched
/// key's record gains an instant (a fresh record starts with one), and
/// records appear no other way.
pub proof fn lemma_put_event_only_event_keys(
    t: Seq<(Seq<char>, (Seq<(Seq<char>, i64)>, Seq<(Seq<char>, i64)>, Seq<(Seq<char>, i64)>))>,
    k: Seq<char>,
    inst: (Seq<char>, i64),
    ct: ChangeType,
)
    requires
        tl_only_event_keys(t),
    ensures
        tl_only_event_keys(tl_put_event(t, k, inst, ct)),
{
    let rec = cr_push(
        if alv_has(t, k) {
            alv_get(t, k)
        } else {
            empty_cr()
        },
        inst,
        ct,
    );
    lemma_al_put_elems(t, k, rec);
    let u = tl_put_event(t, k, inst, ct);
    assert forall|i: int|
        0 <= i < u.len() implies ((#[trigger] u[i]).1.0.len() + u[i].1.1.len() + u[i].1.2.len())
        > 0 by {
        if u[i] == (k, rec) {
            assert(rec.0.len() + rec.1.len() + rec.2.len() > 0);
        } else {
            let j = choose|j: int| 0 <= j < t.len() && u[i] == t[j];
            assert(t[j].1.0.len() + t[j].1.1.len() + t[j].1.2.len() > 0);
        }
    }
}

/// Folding a whole map of events keeps the timeline free of event-less
/// keys.
pub proof fn lemma_add_all_only_event_keys(
    t: Seq<(Seq<char>, (Seq<(Seq<char>, i64)>, Seq<(Seq<char>, i64)>, Seq<(Seq<char>, i64)>))>,
    m: Seq<(Seq<char>, JsonValue)>,
    inst: (Seq<char>, i64),
    ct: ChangeType,
)
    requires
        tl_only_event_keys(t),
    ensures
        tl_only_event_keys(tl_add_all(t, m, inst, ct)),
    decreases m.len(),
{
    if m.len() > 0 {
        lemma_put_event_only_event_keys(t, m[0].0, inst, ct);
        lemma_add_all_only_event_keys(tl_put_event(t, m[0].0, inst, ct), m.skip(1), inst, ct);
    }
}

/// A modified delta's classification keeps the timeline free of
/// event-less keys on both its sides.
pub proof fn lemma_modified_only_event_keys(
    t: Seq<(Seq<char>, (Seq<(Seq<char>, i64)>, Seq<(Seq<char>, i64)>, Seq<(Seq<char>, i64)>))>,
    om: Seq<(Seq<char>, JsonValue)>,
    nm: Seq<(Seq<char>, JsonValue)>,
    inst: (Seq<char>, i64),
)
    requires
        tl_only_event_keys(t),
    ensures
        tl_only_event_keys(tl_old_side(t, om, nm, inst)),
        tl_only_event_keys(tl_new_side(t, nm, om, inst)),
{
    lemma_old_side_only_event_keys(t, om, nm, inst);
    lemma_new_side_only_event_keys(t, nm, om, inst);
}

proof fn lemma_old_side_only_event_keys(
    t: Seq<(Seq<char>, (Seq<(Seq<char>, i64)>, Seq<(Seq<char>, i64)>, Seq<(Seq<char>, i64)>))>,
    om: Seq<(Seq<char>, JsonValue)>,
    nm: Seq<(Seq<char>, JsonValue)>,
    inst: (Seq<char>, i64),
)
    requires
        tl_only_event_keys(t),
    ensures
        tl_only_event_keys(tl_old_side(t, om, nm, inst)),
    decreases om.len(),
{
    if om.len() > 0 {
        let e = om[0];
        let t1 = if !alv_has(nm, e.0) {
            tl_put_event(t, e.0, inst, ChangeType::Removed)
        } else if !jv_eq(e.1, alv_get(nm, e.0)) {
            tl_put_event(t, e.0, inst, ChangeType::Modified)
        } else {
            t
        };
        if !alv_has(nm, e.0) {
            lemma_put_event_only_event_keys(t, e.0, inst, ChangeType::Removed);
        } else if !jv_eq(e.1, alv_get(nm, e.0)) {
            lemma_put_event_only_event_keys(t, e.0, inst, ChangeType::Modified);
        }
        lemma_old_side_only_event_keys(t1, om.skip(1), nm, inst);
    }
}

proof fn lemma_new_side_only_event_keys(
    t: Seq<(Seq<char>, (Seq<(Seq<char>, i64)>, Seq<(Seq<char>, i64)>, Seq<(Seq<char>, i64)>))>,
    nm: Seq<(Seq<char>, JsonValue)>,
    om: Seq<(Seq<char>, JsonValue)>,
    inst: (Seq<char>, i64),
)
    requires
        tl_only_event_keys(t),
    ensures
        tl_only_event_keys(tl_new_side(t, nm, om, inst)),
    decreases nm.len(),
{
    if nm.len() > 0 {
        let e = nm[0];
        let t1 = if !alv_has(om, e.0) {
            tl_put_event(t, e.0, inst, ChangeType::Added)
        } else {
            t
        };
        if !alv_has(om, e.0) {
            lemma_put_event_only_event_keys(t, e.0, inst, ChangeType::Added);
        }
        lemma_new_side_only_event_keys(t1, nm.skip(1), om, inst);
    }
}

/// A key whose value is structurally unchanged across a modified delta
/// receives no event at all from it: the old side skips it because the
/// values compare equal, and the new side skips it because the old side
/// holds it.
pub proof fn lemma_unchanged_key_no_event(
    t: Seq<(Seq<char>, (Seq<(Seq<char>, i64)>, Seq<(Seq<char>, i64)>, Seq<(Seq<char>, i64)>))>,
    om: Seq<(Seq<char>, JsonValue)>,
    nm: Seq<(Seq<char>, JsonValue)>,
    inst: (Seq<char>, i64),
    k: Seq<char>,
)
    requires
        alv_uniq(t),
        alv_has(om, k),
        alv_has(nm, k),
        forall|x: int|
            0 <= x < om.len() && (#[trigger] om[x]).0 == k ==> jv_eq(om[x].1, alv_get(nm, k)),
    ensures
        alv_has(tl_new_side(tl_old_side(t, om, nm, inst), nm, om, inst), k) == alv_has(t, k),
        alv_has(t, k) ==> alv_get(tl_new_side(tl_old_side(t, om, nm, inst), nm, om, inst), k)
            == alv_get(t, k),
{
    lemma_old_side_skips(t, om, nm, inst, k);
    lemma_new_side_skips(tl_old_side(t, om, nm, inst), nm, om, inst, k);
}

/// The old side of a modified delta leaves a key alone when every entry
/// of the old map bound to it carries a value equal to the new side's.
proof fn lemma_old_side_skips(
    t: Seq<(Seq<char>, (Seq<(Seq<char>, i64)>, Seq<(Seq<char>, i64)>, Seq<(Seq<char>, i64)>))>,
    om: Seq<(Seq<char>, JsonValue)>,
    nm: Seq<(Seq<char>, JsonValue)>,
    inst: (Seq<char>, i64),
    k: Seq<char>,
)
    requires
        alv_uniq(t),
        alv_has(nm, k),
        forall|x: int|
            0 <= x < om.len() && (#[trigger] om[x]).0 == k ==> jv_eq(om[x].1, alv_get(nm, k)),
    ensures
        alv_uniq(tl_old_side(t, om, nm, inst)),
        alv_has(tl_old_side(t, om, nm, inst), k) == alv_has(t, k),
        alv_has(t, k) ==> alv_get(tl_old_side(t, om, nm, inst), k) == alv_get(t, k),
    decreases om.len(),
{
    if om.len() > 0 {
        let e = om[0];
        let t1 = if !alv_has(nm, e.0) {
            tl_put_event(t, e.0, inst, ChangeType::Removed)
        } else if !jv_eq(e.1, alv_get(nm, e.0)) {
            tl_put_event(t, e.0, inst, ChangeType::Modified)
        } else {
            t
        };
        if e.0 == k {
            assert(jv_eq(e.1, alv_get(nm, k)));
            assert(t1 == t);
        } else {
            if !alv_has(nm, e.0) {
                lemma_put_event_semantics(t, e.0, inst, ChangeType::Removed);
            } else if !jv_eq(e.1, alv_get(nm, e.0)) {
                lemma_put_event_semantics(t, e.0, inst, ChangeType::Modified);
            }
        }
        assert(forall|x: int|
            0 <= x < om.skip(1).len() ==> (#[trigger] om.skip(1)[x]) == om[x + 1]);
        lemma_old_side_skips(t1, om.skip(1), nm, inst, k);
    }
}

/// The new side of a modified delta leaves a key alone when the old map
/// holds it.
proof fn lemma_new_side_skips(
    t: Seq<(Seq<char>, (Seq<(Seq<char>, i64)>, Seq<(Seq<char>, i64)>, Seq<(Seq<char>, i64)>))>,
    nm: Seq<(Seq<char>, JsonValue)>,
    om: Seq<(Seq<char>, JsonValue)>,
    inst: (Seq<char>, i64),
    k: Seq<char>,
)
    requires
        alv_uniq(t),
        alv_has(om, k),
    ensures
        alv_uniq(tl_new_side(t, nm, om, inst)),
        alv_has(tl_new_side(t, nm, om, inst), k) == alv_has(t, k),
        alv_has(t, k) ==> alv_get(tl_new_side(t, nm, om, inst), k) == alv_get(t, k),
    decreases nm.len(),
{
    if nm.len() > 0 {
        let e = nm[0];
        let t1 = if !alv_has(om, e.0) {
            tl_put_event(t, e.0, inst, ChangeType::Added)
        } else {
            t
        };
        if e.0 == k {
            assert(alv_has(om, e.0));
            assert(t1 == t);
        } else {
            if !alv_has(om, e.0) {
                lemma_put_event_semantics(t, e.0, inst, ChangeType::Added);
            }
        }
        lemma_new_side_skips(t1, nm.skip(1), om, inst, k);
    }
}

} // verus!
