use vstd::prelude::*;

use crate::aggregate::{ci_v, cr_v, recs_v, tl_v, Aggregator, ChangeInstant, ChangeRecord,
    PathTimeline};
use crate::errors::HistoryError;

verus! {

/// The ISO-8601 rendering (with offset) of a timestamp, seconds since the
/// epoch, in UTC; nothing for a timestamp the calendar cannot represent.
pub uninterp spec fn iso8601_of(ts: i64) -> Option<Seq<char>>;

/// Relies on chrono::DateTime::from_timestamp (UTC) and its "%+" format:
/// the whole outcome is a function of the timestamp alone — a rendering
/// exactly when the named result has one, and nothing exactly when it has
/// none (chrono returns nothing only outside its representable range).
#[verifier::external_body]
pub(crate) fn format_timestamp(ts: i64) -> (r: Option<String>)
    ensures
        match r {
            Some(s) => iso8601_of(ts) == Some(s@),
            None => iso8601_of(ts) is None,
        },
{
    chrono::DateTime::from_timestamp(ts, 0).map(|dt| dt.format("%+").to_string())
}

/// Lexicographic order on character sequences, by code point; on UTF-8
/// strings this agrees with byte order.
pub open spec fn lex_le(a: Seq<char>, b: Seq<char>) -> bool
    decreases a.len(),
{
    if a.len() == 0 {
        true
    } else if b.len() == 0 {
        false
    } else if (a[0] as u32) < (b[0] as u32) {
        true
    } else if (a[0] as u32) > (b[0] as u32) {
        false
    } else {
        lex_le(a.skip(1), b.skip(1))
    }
}

/// Compares two strings in lexicographic order.
pub fn str_lex_le(a: &String, b: &String) -> (r: bool)
    ensures
        r == lex_le(a@, b@),
{
    let an = a.as_str().unicode_len();
    let bn = b.as_str().unicode_len();
    proof {
        assert(a@.skip(0) =~= a@);
        assert(b@.skip(0) =~= b@);
    }
    let mut i: usize = 0;
    loop
        invariant
            an == a@.len(),
            bn == b@.len(),
            i <= an,
            i <= bn,
            lex_le(a@, b@) == lex_le(a@.skip(i as int), b@.skip(i as int)),
        decreases an - i,
    {
        if i >= an {
            proof {
                assert(a@.skip(i as int).len() == 0);
            }
            return true;
        }
        if i >= bn {
            proof {
                assert(a@.skip(i as int).len() > 0);
                assert(b@.skip(i as int).len() == 0);
            }
            return false;
        }
        let ca = a.as_str().get_char(i);
        let cb = b.as_str().get_char(i);
        proof {
            assert(a@.skip(i as int)[0] == a@[i as int]);
            assert(b@.skip(i as int)[0] == b@[i as int]);
        }
        if (ca as u32) < (cb as u32) {
            return true;
        }
        if (ca as u32) > (cb as u32) {
            return false;
        }
        proof {
            assert(a@.skip(i as int).skip(1) =~= a@.skip(i as int + 1));
            assert(b@.skip(i as int).skip(1) =~= b@.skip(i as int + 1));
        }
        i += 1;
    }
}

/// A pair placed into a sorted run: before the first entry its key does
/// not come after, keeping earlier equal keys first.
pub open spec fn insert_sorted_spec<V>(s: Seq<(Seq<char>, V)>, p: (Seq<char>, V)) -> Seq<
    (Seq<char>, V),
>
    decreases s.len(),
{
    if s.len() == 0 {
        seq![p]
    } else if lex_le(p.0, s[0].0) && !lex_le(s[0].0, p.0) {
        seq![p] + s
    } else {
        seq![s[0]] + insert_sorted_spec(s.skip(1), p)
    }
}

/// Insertion sort by key, stable for equal keys.
pub open spec fn sort_spec<V>(s: Seq<(Seq<char>, V)>) -> Seq<(Seq<char>, V)>
    decreases s.len(),
{
    if s.len() == 0 {
        s
    } else {
        insert_sorted_spec(sort_spec(s.drop_last()), s.last())
    }
}

/// The order always relates two keys one way or the other.
pub proof fn lemma_lex_total(a: Seq<char>, b: Seq<char>)
    ensures
        lex_le(a, b) || lex_le(b, a),
    decreases a.len(),
{
    if a.len() > 0 && b.len() > 0 && !((a[0] as u32) < (b[0] as u32)) && !((a[0] as u32) > (
    b[0] as u32)) {
        lemma_lex_total(a.skip(1), b.skip(1));
    }
}

/// The order is transitive.
pub proof fn lemma_lex_trans(a: Seq<char>, b: Seq<char>, c: Seq<char>)
    requires
        lex_le(a, b),
        lex_le(b, c),
    ensures
        lex_le(a, c),
    decreases a.len(),
{
    if a.len() > 0 {
        assert(b.len() > 0);
        assert(c.len() > 0);
        if (a[0] as u32) == (b[0] as u32) && (b[0] as u32) == (c[0] as u32) {
            lemma_lex_trans(a.skip(1), b.skip(1), c.skip(1));
        }
    }
}

/// Keys in order: every earlier entry's key comes no later than every
/// later entry's.
pub open spec fn sorted_by_key<V>(s: Seq<(Seq<char>, V)>) -> bool {
    forall|i: int, j: int| 0 <= i < j < s.len() ==> lex_le((#[trigger] s[i]).0, (#[trigger] s[j]).0)
}

/// Every entry of an insertion is the inserted pair or one of the old
/// entries.
proof fn lemma_insert_sorted_elems<V>(s: Seq<(Seq<char>, V)>, p: (Seq<char>, V))
    ensures
        insert_sorted_spec(s, p).len() == s.len() + 1,
        forall|i: int|
            0 <= i < insert_sorted_spec(s, p).len() ==> ((#[trigger] insert_sorted_spec(s, p)[i])
                == p || exists|j: int| 0 <= j < s.len() && insert_sorted_spec(s, p)[i] == s[j]),
    decreases s.len(),
{
    if s.len() == 0 {
    } else if lex_le(p.0, s[0].0) && !lex_le(s[0].0, p.0) {
        assert forall|i: int|
            0 <= i < insert_sorted_spec(s, p).len() implies ((#[trigger] insert_sorted_spec(
            s,
            p,
        )[i]) == p || exists|j: int| 0 <= j < s.len() && insert_sorted_spec(s, p)[i] == s[j]) by {
            if i > 0 {
                assert(insert_sorted_spec(s, p)[i] == s[i - 1]);
            }
        }
    } else {
        lemma_insert_sorted_elems(s.skip(1), p);
        assert forall|i: int|
            0 <= i < insert_sorted_spec(s, p).len() implies ((#[trigger] insert_sorted_spec(
            s,
            p,
        )[i]) == p || exists|j: int| 0 <= j < s.len() && insert_sorted_spec(s, p)[i] == s[j]) by {
            if i > 0 {
                let e = insert_sorted_spec(s.skip(1), p)[i - 1];
                assert(insert_sorted_spec(s, p)[i] == e);
                if e != p {
                    let j = choose|j: int| 0 <= j < s.skip(1).len() && e == s.skip(1)[j];
                    assert(e == s[j + 1]);
                }
            }
        }
    }
}

/// Inserting into a sorted run keeps it sorted.
proof fn lemma_insert_sorted_keeps<V>(s: Seq<(Seq<char>, V)>, p: (Seq<char>, V))
    requires
        sorted_by_key(s),
    ensures
        sorted_by_key(insert_sorted_spec(s, p)),
    decreases s.len(),
{
    if s.len() == 0 {
    } else if lex_le(p.0, s[0].0) && !lex_le(s[0].0, p.0) {
        let u = insert_sorted_spec(s, p);
        assert forall|i: int, j: int|
            0 <= i < j < u.len() implies lex_le((#[trigger] u[i]).0, (#[trigger] u[j]).0) by {
            if i == 0 {
                assert(u[j] == s[j - 1]);
                if j > 1 {
                    assert(lex_le(s[0].0, s[j - 1].0));
                    lemma_lex_trans(p.0, s[0].0, s[j - 1].0);
                }
            } else {
                assert(u[i] == s[i - 1] && u[j] == s[j - 1]);
            }
        }
    } else {
        assert(forall|t: int| 0 <= t < s.skip(1).len() ==> (#[trigger] s.skip(1)[t]) == s[t + 1]);
        lemma_insert_sorted_keeps(s.skip(1), p);
        lemma_insert_sorted_elems(s.skip(1), p);
        lemma_lex_total(p.0, s[0].0);
        let u = insert_sorted_spec(s, p);
        let v = insert_sorted_spec(s.skip(1), p);
        assert forall|i: int, j: int|
            0 <= i < j < u.len() implies lex_le((#[trigger] u[i]).0, (#[trigger] u[j]).0) by {
            if i == 0 {
                assert(u[j] == v[j - 1]);
                if v[j - 1] == p {
                    assert(lex_le(s[0].0, p.0));
                } else {
                    let t = choose|t: int| 0 <= t < s.skip(1).len() && v[j - 1] == s.skip(1)[t];
                    assert(v[j - 1] == s[t + 1]);
                    assert(lex_le(s[0].0, s[t + 1].0));
                }
            } else {
                assert(u[i] == v[i - 1] && u[j] == v[j - 1]);
            }
        }
    }
}

/// The sort leaves every timeline ordered by key, so each path's entries
/// are emitted sorted.
pub proof fn lemma_sort_spec_sorted<V>(s: Seq<(Seq<char>, V)>)
    ensures
        sorted_by_key(sort_spec(s)),
    decreases s.len(),
{
    if s.len() > 0 {
        lemma_sort_spec_sorted(s.drop_last());
        lemma_insert_sorted_keeps(sort_spec(s.drop_last()), s.last());
    }
}

/// An event instant as it is emitted: commit id and rendered timestamp.
pub struct RenderedInstant {
    pub commit: String,
    pub timestamp: String,
}

/// View of a rendered instant.
pub open spec fn ri_v(r: RenderedInstant) -> (Seq<char>, Seq<char>) {
    (r.commit@, r.timestamp@)
}

/// A per-key aggregate as it is emitted: each sequence chronological,
/// oldest event first.
pub struct RenderedRecord {
    pub added: Vec<RenderedInstant>,
    pub removed: Vec<RenderedInstant>,
    pub modified: Vec<RenderedInstant>,
}

/// One path's finished output: entries sorted by primary key.
pub struct PathOutput {
    pub path: String,
    pub entries: Vec<(String, RenderedRecord)>,
}

/// What one event sequence becomes on output: reversed into chronological
/// order, each timestamp rendered.
pub open spec fn rendered_of(s: Seq<(Seq<char>, i64)>) -> Seq<(Seq<char>, Seq<char>)> {
    s.reverse().map_values(|p: (Seq<char>, i64)| (p.0, iso8601_of(p.1).unwrap()))
}

/// Whether every instant of one event sequence has a rendering.
pub open spec fn events_render(s: Seq<(Seq<char>, i64)>) -> bool {
    forall|i: int| 0 <= i < s.len() ==> iso8601_of((#[trigger] s[i]).1) is Some
}

/// Whether every instant of a per-key aggregate has a rendering.
pub open spec fn cr_renders(
    c: (Seq<(Seq<char>, i64)>, Seq<(Seq<char>, i64)>, Seq<(Seq<char>, i64)>),
) -> bool {
    events_render(c.0) && events_render(c.1) && events_render(c.2)
}

/// Whether every instant anywhere in a timeline has a rendering.
pub open spec fn tl_renders(
    t: Seq<(Seq<char>, (Seq<(Seq<char>, i64)>, Seq<(Seq<char>, i64)>, Seq<(Seq<char>, i64)>))>,
) -> bool {
    forall|i: int| 0 <= i < t.len() ==> cr_renders((#[trigger] t[i]).1)
}

/// Reverses one event sequence into chronological order and renders its
/// timestamps; fails, naming the offending instant, exactly when some
/// instant's timestamp has no rendering.
#[verifier::loop_isolation(false)]
fn render_events(v: &Vec<ChangeInstant>) -> (r: Result<Vec<RenderedInstant>, HistoryError>)
    ensures
        match r {
            Ok(out) => {
                &&& events_render(v@.map_values(|c: ChangeInstant| ci_v(c)))
                &&& out@.map_values(|x: RenderedInstant| ri_v(x)) == rendered_of(
                    v@.map_values(|c: ChangeInstant| ci_v(c)),
                )
            },
            Err(e) => {
                &&& !events_render(v@.map_values(|c: ChangeInstant| ci_v(c)))
                &&& e matches HistoryError::TimestampOutOfRange { commit, timestamp }
                    && exists|j: int|
                    0 <= j < v@.len() && commit == (#[trigger] v@[j]).commit && timestamp == v@[
                        j
                    ].timestamp && iso8601_of(v@[j].timestamp) is None
            },
        },
{
    let ghost mapped = v@.map_values(|c: ChangeInstant| ci_v(c));
    proof {
        assert(forall|j: int| 0 <= j < v@.len() ==> (#[trigger] mapped[j]) == ci_v(v@[j]));
    }
    let n = v.len();
    let mut out: Vec<RenderedInstant> = Vec::new();
    let mut i: usize = 0;
    while i < n
        invariant
            n == v@.len(),
            i <= n,
            out@.len() == i,
            forall|j: int| n - i <= j < n ==> iso8601_of((#[trigger] v@[j]).timestamp) is Some,
            forall|k: int|
                0 <= k < i ==> (#[trigger] out@[k]).commit@ == v@[n - 1 - k].commit@ && Some(
                    out@[k].timestamp@,
                ) == iso8601_of(v@[n - 1 - k].timestamp),
        decreases n - i,
    {
        let inst = &v[n - 1 - i];
        match format_timestamp(inst.timestamp) {
            Some(s) => {
                out.push(RenderedInstant { commit: inst.commit.clone(), timestamp: s });
            },
            None => {
                proof {
                    assert(mapped[n - 1 - i as int].1 == v@[n - 1 - i as int].timestamp);
                    assert(!events_render(mapped));
                }
                return Err(
                    HistoryError::TimestampOutOfRange {
                        commit: inst.commit.clone(),
                        timestamp: inst.timestamp,
                    },
                );
            },
        }
        i += 1;
    }
    proof {
        assert(events_render(mapped));
        assert(out@.map_values(|x: RenderedInstant| ri_v(x)) =~= rendered_of(mapped));
    }
    Ok(out)
}

/// What one per-key aggregate becomes on output.
pub open spec fn rendered_cr(
    c: (Seq<(Seq<char>, i64)>, Seq<(Seq<char>, i64)>, Seq<(Seq<char>, i64)>),
) -> (Seq<(Seq<char>, Seq<char>)>, Seq<(Seq<char>, Seq<char>)>, Seq<(Seq<char>, Seq<char>)>) {
    (rendered_of(c.0), rendered_of(c.1), rendered_of(c.2))
}

/// View of a rendered record.
pub open spec fn rr_v(r: RenderedRecord) -> (Seq<(Seq<char>, Seq<char>)>, Seq<
    (Seq<char>, Seq<char>),
>, Seq<(Seq<char>, Seq<char>)>) {
    (r.added@.map_values(|x: RenderedInstant| ri_v(x)),
    r.removed@.map_values(|x: RenderedInstant| ri_v(x)),
    r.modified@.map_values(|x: RenderedInstant| ri_v(x)))
}

/// What one whole timeline becomes on output: sorted by key, each record
/// rendered.
pub open spec fn assemble_tl(
    t: Seq<(Seq<char>, (Seq<(Seq<char>, i64)>, Seq<(Seq<char>, i64)>, Seq<(Seq<char>, i64)>))>,
) -> Seq<
    (Seq<char>, (Seq<(Seq<char>, Seq<char>)>, Seq<(Seq<char>, Seq<char>)>, Seq<(Seq<char>, Seq<char>)>)),
> {
    sort_spec(t).map_values(
        |p: (Seq<char>, (Seq<(Seq<char>, i64)>, Seq<(Seq<char>, i64)>, Seq<(Seq<char>, i64)>))|
            (p.0, rendered_cr(p.1)),
    )
}

/// Each path's assembled entries are sorted by primary key.
pub proof fn lemma_assemble_tl_sorted(
    t: Seq<(Seq<char>, (Seq<(Seq<char>, i64)>, Seq<(Seq<char>, i64)>, Seq<(Seq<char>, i64)>))>,
)
    ensures
        sorted_by_key(assemble_tl(t)),
{
    lemma_sort_spec_sorted(t);
    assert forall|i: int, j: int|
        0 <= i < j < assemble_tl(t).len() implies lex_le(
        (#[trigger] assemble_tl(t)[i]).0,
        (#[trigger] assemble_tl(t)[j]).0,
    ) by {
        assert(assemble_tl(t)[i].0 == sort_spec(t)[i].0);
        assert(assemble_tl(t)[j].0 == sort_spec(t)[j].0);
        assert(lex_le(sort_spec(t)[i].0, sort_spec(t)[j].0));
    }
}

/// An insertion's entries are the old entries and the new pair: nothing
/// appears, and nothing is lost.
proof fn lemma_insert_sorted_elems_back<V>(s: Seq<(Seq<char>, V)>, p: (Seq<char>, V))
    ensures
        exists|i: int|
            0 <= i < insert_sorted_spec(s, p).len() && insert_sorted_spec(s, p)[i] == p,
        forall|j: int|
            0 <= j < s.len() ==> exists|i: int|
                0 <= i < insert_sorted_spec(s, p).len() && insert_sorted_spec(s, p)[i] == (
                #[trigger] s[j]),
    decreases s.len(),
{
    if s.len() == 0 {
        assert(insert_sorted_spec(s, p)[0] == p);
    } else if lex_le(p.0, s[0].0) && !lex_le(s[0].0, p.0) {
        assert(insert_sorted_spec(s, p)[0] == p);
        assert forall|j: int|
            0 <= j < s.len() implies exists|i: int|
            0 <= i < insert_sorted_spec(s, p).len() && insert_sorted_spec(s, p)[i] == (
            #[trigger] s[j]) by {
            assert(insert_sorted_spec(s, p)[j + 1] == s[j]);
        }
    } else {
        lemma_insert_sorted_elems_back(s.skip(1), p);
        let v = insert_sorted_spec(s.skip(1), p);
        let ip = choose|i: int| 0 <= i < v.len() && v[i] == p;
        assert(insert_sorted_spec(s, p)[ip + 1] == p);
        assert forall|j: int|
            0 <= j < s.len() implies exists|i: int|
            0 <= i < insert_sorted_spec(s, p).len() && insert_sorted_spec(s, p)[i] == (
            #[trigger] s[j]) by {
            if j == 0 {
                assert(insert_sorted_spec(s, p)[0] == s[0]);
            } else {
                assert(s.skip(1)[j - 1] == s[j]);
                let i0 = choose|i: int| 0 <= i < v.len() && v[i] == s.skip(1)[j - 1];
                assert(insert_sorted_spec(s, p)[i0 + 1] == s[j]);
            }
        }
    }
}

/// The sort is a permutation: its entries are exactly the timeline's.
#[verifier::rlimit(100)]
pub proof fn lemma_sort_spec_elems<V>(s: Seq<(Seq<char>, V)>)
    ensures
        sort_spec(s).len() == s.len(),
        forall|i: int|
            0 <= i < sort_spec(s).len() ==> exists|j: int|
                0 <= j < s.len() && (#[trigger] sort_spec(s)[i]) == s[j],
        forall|j: int|
            0 <= j < s.len() ==> exists|i: int|
                0 <= i < sort_spec(s).len() && sort_spec(s)[i] == (#[trigger] s[j]),
    decreases s.len(),
{
    if s.len() > 0 {
        let d = s.drop_last();
        let p = s.last();
        lemma_sort_spec_elems(d);
        lemma_insert_sorted_elems(sort_spec(d), p);
        lemma_insert_sorted_elems_back(sort_spec(d), p);
        let u = insert_sorted_spec(sort_spec(d), p);
        assert forall|i: int|
            0 <= i < sort_spec(s).len() implies exists|j: int|
            0 <= j < s.len() && (#[trigger] sort_spec(s)[i]) == s[j] by {
            let e = u[i];
            if e == p {
                assert(sort_spec(s)[i] == s[s.len() - 1]);
            } else {
                let jd = choose|jd: int| 0 <= jd < sort_spec(d).len() && sort_spec(d)[jd] == e;
                let j0 = choose|j0: int| 0 <= j0 < d.len() && sort_spec(d)[jd] == d[j0];
                assert(sort_spec(s)[i] == s[j0]);
            }
        }
        assert forall|j: int|
            0 <= j < s.len() implies exists|i: int|
            0 <= i < sort_spec(s).len() && sort_spec(s)[i] == (#[trigger] s[j]) by {
            if j == s.len() - 1 {
                let ip = choose|i: int| 0 <= i < u.len() && u[i] == p;
                assert(sort_spec(s)[ip] == s[j]);
            } else {
                assert(d[j] == s[j]);
                let id = choose|i: int| 0 <= i < sort_spec(d).len() && sort_spec(d)[i] == d[j];
                let iu = choose|i: int| 0 <= i < u.len() && u[i] == sort_spec(d)[id];
                assert(sort_spec(s)[iu] == s[j]);
            }
        }
    }
}

/// Placing a pair before the first strictly larger key is what the
/// insertion spec does.
proof fn lemma_insert_sorted_at<V>(s: Seq<(Seq<char>, V)>, p: (Seq<char>, V), j: int)
    requires
        0 <= j <= s.len(),
        forall|t: int| 0 <= t < j ==> !(lex_le(p.0, (#[trigger] s[t]).0) && !lex_le(s[t].0, p.0)),
        j < s.len() ==> lex_le(p.0, s[j].0) && !lex_le(s[j].0, p.0),
    ensures
        insert_sorted_spec(s, p) == s.insert(j, p),
    decreases j,
{
    if s.len() == 0 {
        assert(insert_sorted_spec(s, p) =~= s.insert(0, p));
    } else if j == 0 {
        assert(insert_sorted_spec(s, p) =~= s.insert(0, p));
    } else {
        assert(forall|t: int| 0 <= t < j - 1 ==> s.skip(1)[t] == s[t + 1]);
        lemma_insert_sorted_at(s.skip(1), p, j - 1);
        assert(insert_sorted_spec(s, p) =~= s.insert(j, p));
    }
}

/// Inserts one entry into a sorted run, before the first strictly larger
/// key.
#[verifier::loop_isolation(false)]
fn insert_sorted(acc: &mut Vec<(String, ChangeRecord)>, e: (String, ChangeRecord))
    ensures
        tl_v(final(acc)@) == insert_sorted_spec(tl_v(old(acc)@), (e.0@, cr_v(e.1))),
{
    let ghost old_a = acc@;
    let ghost pv = (e.0@, cr_v(e.1));
    proof {
        crate::aggregate::lemma_tl_v(old_a);
    }
    let n = acc.len();
    let mut j: usize = 0;
    while j < n
        invariant
            n == acc@.len(),
            j <= n,
            acc@ == old_a,
            forall|t: int|
                0 <= t < j ==> !(lex_le(pv.0, (#[trigger] tl_v(old_a)[t]).0) && !lex_le(
                    tl_v(old_a)[t].0,
                    pv.0,
                )),
        decreases n - j,
    {
        let le1 = str_lex_le(&e.0, &acc[j].0);
        let le2 = str_lex_le(&acc[j].0, &e.0);
        if le1 && !le2 {
            break;
        }
        j += 1;
    }
    proof {
        lemma_insert_sorted_at(tl_v(old_a), pv, j as int);
    }
    acc.insert(j, e);
    proof {
        crate::aggregate::lemma_tl_v(acc@);
        assert(tl_v(acc@) =~= tl_v(old_a).insert(j as int, pv));
    }
}

/// Sorts one timeline by primary key.
#[verifier::loop_isolation(false)]
fn sort_timeline(tl: PathTimeline) -> (r: Vec<(String, ChangeRecord)>)
    ensures
        tl_v(r@) == sort_spec(tl_v(tl@)),
{
    let ghost all = tl@;
    let mut work = tl;
    let mut acc: Vec<(String, ChangeRecord)> = Vec::new();
    let ghost i: int = 0;
    proof {
        crate::aggregate::lemma_tl_v(all);
        assert(tl_v(all.take(0)) =~= Seq::empty());
        assert(tl_v(acc@) =~= Seq::empty());
    }
    while work.len() > 0
        invariant
            0 <= i <= all.len(),
            work@ == all.skip(i),
            tl_v(acc@) == sort_spec(tl_v(all.take(i))),
        decreases work@.len(),
    {
        let e = work.remove(0);
        proof {
            crate::aggregate::lemma_tl_v(all);
            crate::aggregate::lemma_tl_v(all.take(i + 1));
            assert(e == all[i]);
            assert(work@ =~= all.skip(i + 1));
            assert(tl_v(all.take(i + 1)).drop_last() =~= tl_v(all.take(i)));
            assert(tl_v(all.take(i + 1)).last() == (all[i].0@, cr_v(all[i].1)));
        }
        insert_sorted(&mut acc, e);
        proof {
            i = i + 1;
        }
    }
    proof {
        assert(i == all.len());
        assert(all.take(i) =~= all);
    }
    acc
}

/// Renders one per-key aggregate, all three sequences; fails exactly
/// when some instant in it has no rendering.
fn render_record(rec: &ChangeRecord) -> (r: Result<RenderedRecord, HistoryError>)
    ensures
        match r {
            Ok(out) => {
                &&& cr_renders(cr_v(*rec))
                &&& rr_v(out) == rendered_cr(cr_v(*rec))
            },
            Err(e) => {
                &&& !cr_renders(cr_v(*rec))
                &&& e is TimestampOutOfRange
            },
        },
{
    let added = match render_events(&rec.added) {
        Ok(v) => v,
        Err(e) => {
            return Err(e);
        },
    };
    let removed = match render_events(&rec.removed) {
        Ok(v) => v,
        Err(e) => {
            return Err(e);
        },
    };
    let modified = match render_events(&rec.modified) {
        Ok(v) => v,
        Err(e) => {
            return Err(e);
        },
    };
    Ok(RenderedRecord { added, removed, modified })
}

/// Sorts every path's timeline by primary key, reverses each record's
/// event sequences into chronological order, and renders each timestamp;
/// on success the outcome is exactly the rendering of the aggregator's
/// timelines, path by path, and failure comes exactly when some recorded
/// instant's timestamp has no rendering.
#[verifier::loop_isolation(false)]
#[verifier::rlimit(100)]
pub fn assemble(agg: Aggregator) -> (r: Result<Vec<PathOutput>, HistoryError>)
    ensures
        match r {
            Ok(out) => {
                &&& out@.len() == agg.records@.len()
                &&& forall|p: int|
                    0 <= p < out@.len() ==> tl_renders((#[trigger] recs_v(agg.records@)[p]).1)
                &&& forall|p: int|
                    0 <= p < out@.len() ==> (#[trigger] out@[p]).path@ == recs_v(agg.records@)[
                        p
                    ].0 && out@[p].entries@.map_values(
                        |q: (String, RenderedRecord)| (q.0@, rr_v(q.1)),
                    ) == assemble_tl(recs_v(agg.records@)[p].1)
            },
            Err(e) => {
                &&& e is TimestampOutOfRange
                &&& exists|p: int|
                    0 <= p < recs_v(agg.records@).len() && !tl_renders(
                        (#[trigger] recs_v(agg.records@)[p]).1,
                    )
            },
        },
{
    let ghost all = agg.records@;
    proof {
        crate::aggregate::lemma_recs_v(all);
    }
    let mut work = agg.records;
    let mut out: Vec<PathOutput> = Vec::new();
    let ghost i: int = 0;
    while work.len() > 0
        invariant
            0 <= i <= all.len(),
            work@ == all.skip(i),
            out@.len() == i,
            forall|p: int| 0 <= p < i ==> tl_renders((#[trigger] recs_v(all)[p]).1),
            forall|p: int|
                0 <= p < i ==> (#[trigger] out@[p]).path@ == recs_v(all)[p].0 && out@[
                    p
                ].entries@.map_values(|q: (String, RenderedRecord)| (q.0@, rr_v(q.1)))
                    == assemble_tl(recs_v(all)[p].1),
        decreases work@.len(),
    {
        let entry = work.remove(0);
        proof {
            crate::aggregate::lemma_recs_v(all);
            assert(entry == all[i]);
            assert(work@ =~= all.skip(i + 1));
            assert(recs_v(all)[i] == (all[i].0@, tl_v(all[i].1@)));
        }
        let (path, tl) = entry;
        let sorted = sort_timeline(tl);
        let n = sorted.len();
        let mut entries: Vec<(String, RenderedRecord)> = Vec::new();
        let mut k: usize = 0;
        while k < n
            invariant
                n == sorted@.len(),
                k <= n,
                tl_v(sorted@) == sort_spec(tl_v(all[i].1@)),
                entries@.len() == k,
                forall|t: int| 0 <= t < k ==> cr_renders((#[trigger] tl_v(sorted@)[t]).1),
                forall|t: int|
                    0 <= t < k ==> (#[trigger] entries@[t]).0@ == tl_v(sorted@)[t].0 && rr_v(
                        entries@[t].1,
                    ) == rendered_cr(tl_v(sorted@)[t].1),
            decreases n - k,
        {
            proof {
                crate::aggregate::lemma_tl_v(sorted@);
            }
            let record = match render_record(&sorted[k].1) {
                Ok(v) => v,
                Err(e) => {
                    proof {
                        assert(!cr_renders(tl_v(sorted@)[k as int].1));
                        lemma_sort_spec_elems(tl_v(all[i].1@));
                        let j = choose|j: int|
                            0 <= j < tl_v(all[i].1@).len() && sort_spec(tl_v(all[i].1@))[
                                k as int
                            ] == tl_v(all[i].1@)[j];
                        assert(!cr_renders(tl_v(all[i].1@)[j].1));
                        assert(!tl_renders(recs_v(all)[i].1));
                    }
                    return Err(e);
                },
            };
            let key = sorted[k].0.clone();
            entries.push((key, record));
            k += 1;
        }
        proof {
            crate::aggregate::lemma_tl_v(sorted@);
            assert(entries@.map_values(|q: (String, RenderedRecord)| (q.0@, rr_v(q.1)))
                =~= assemble_tl(tl_v(all[i].1@)));
            lemma_sort_spec_elems(tl_v(all[i].1@));
            assert forall|j: int|
                0 <= j < tl_v(all[i].1@).len() implies cr_renders(
                (#[trigger] tl_v(all[i].1@)[j]).1,
            ) by {
                let t = choose|t: int|
                    0 <= t < sort_spec(tl_v(all[i].1@)).len() && sort_spec(tl_v(all[i].1@))[t]
                        == tl_v(all[i].1@)[j];
                assert(cr_renders(tl_v(sorted@)[t].1));
            }
            assert(tl_renders(recs_v(all)[i].1));
        }
        out.push(PathOutput { path, entries });
        proof {
            i = i + 1;
        }
    }
    proof {
        assert(i == all.len());
    }
    Ok(out)
}

} // verus!
