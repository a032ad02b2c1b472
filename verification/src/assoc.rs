use vstd::prelude::*;

verus! {

/// Key of the entry at position `i` of an association list.
pub open spec fn key_at<V>(entries: Seq<(String, V)>, i: int) -> Seq<char> {
    entries[i].0@
}

/// Whether some entry of the association list carries the key `k`.
pub open spec fn has_key<V>(entries: Seq<(String, V)>, k: Seq<char>) -> bool {
    exists|j: int| 0 <= j < entries.len() && key_at(entries, j) == k
}

/// Pairwise-distinct keys.
pub open spec fn uniq_keys<V>(entries: Seq<(String, V)>) -> bool {
    forall|i: int, j: int|
        0 <= i < j < entries.len() ==> key_at(entries, i) != key_at(entries, j)
}

/// Position of the first entry bound to `key` in an association list,
/// or `None` when no entry carries that key.
pub fn assoc_find<V>(entries: &Vec<(String, V)>, key: &String) -> (r: Option<usize>)
    ensures
        match r {
            Some(j) => {
                &&& (j as int) < entries@.len()
                &&& key_at(entries@, j as int) == key@
                &&& forall|t: int| 0 <= t < j ==> key_at(entries@, t) != key@
            },
            None => !has_key(entries@, key@),
        },
{
    let n = entries.len();
    let mut j: usize = 0;
    while j < n
        invariant
            n == entries@.len(),
            j <= n,
            forall|t: int| 0 <= t < j ==> key_at(entries@, t) != key@,
        decreases n - j,
    {
        if entries[j].0.eq(key) {
            return Some(j);
        }
        j += 1;
    }
    None
}

/// View of an association list: each key replaced by its character sequence.
pub open spec fn entries_v<V>(entries: Seq<(String, V)>) -> Seq<(Seq<char>, V)> {
    entries.map_values(|p: (String, V)| (p.0@, p.1))
}

/// The view is pointwise: same length, each key viewed.
pub proof fn lemma_entries_v<V>(s: Seq<(String, V)>)
    ensures
        entries_v(s).len() == s.len(),
        forall|t: int| 0 <= t < s.len() ==> (#[trigger] entries_v(s)[t]) == (s[t].0@, s[t].1),
        forall|t: int| 0 <= t < s.len() ==> key_at(s, t) == (#[trigger] entries_v(s)[t]).0,
{
}

/// Whether a viewed association list binds the key `k`.
pub open spec fn alv_has<V>(s: Seq<(Seq<char>, V)>, k: Seq<char>) -> bool {
    exists|i: int| 0 <= i < s.len() && s[i].0 == k
}

/// Position of an entry bound to `k` in a viewed association list.
pub open spec fn alv_ix<V>(s: Seq<(Seq<char>, V)>, k: Seq<char>) -> int {
    choose|i: int| 0 <= i < s.len() && s[i].0 == k
}

/// Value bound to `k` in a viewed association list.
pub open spec fn alv_get<V>(s: Seq<(Seq<char>, V)>, k: Seq<char>) -> V {
    s[alv_ix(s, k)].1
}

/// Pairwise-distinct keys of a viewed association list.
pub open spec fn alv_uniq<V>(s: Seq<(Seq<char>, V)>) -> bool {
    forall|i: int, j: int| 0 <= i < j < s.len() ==> s[i].0 != s[j].0
}

/// Binds `k` to `v`: replaces the first entry carrying `k`, in place,
/// or appends a new entry when no entry carries `k`.
pub open spec fn al_put<V>(s: Seq<(Seq<char>, V)>, k: Seq<char>, v: V) -> Seq<(Seq<char>, V)>
    decreases s.len(),
{
    if s.len() == 0 {
        seq![(k, v)]
    } else if s[0].0 == k {
        seq![(k, v)] + s.skip(1)
    } else {
        seq![s[0]] + al_put(s.skip(1), k, v)
    }
}

/// Putting at an existing key is an in-place update.
pub proof fn lemma_al_put_replace<V>(s: Seq<(Seq<char>, V)>, k: Seq<char>, v: V, j: int)
    requires
        0 <= j < s.len(),
        s[j].0 == k,
        forall|t: int| 0 <= t < j ==> s[t].0 != k,
    ensures
        al_put(s, k, v) == s.update(j, (k, v)),
    decreases j,
{
    if j == 0 {
        assert(al_put(s, k, v) =~= s.update(0, (k, v)));
    } else {
        assert(forall|t: int| 0 <= t < j - 1 ==> s.skip(1)[t].0 == s[t + 1].0);
        lemma_al_put_replace(s.skip(1), k, v, j - 1);
        assert(al_put(s, k, v) =~= s.update(j, (k, v)));
    }
}

/// Putting at a fresh key appends the new entry.
pub proof fn lemma_al_put_append<V>(s: Seq<(Seq<char>, V)>, k: Seq<char>, v: V)
    requires
        forall|t: int| 0 <= t < s.len() ==> s[t].0 != k,
    ensures
        al_put(s, k, v) == s.push((k, v)),
    decreases s.len(),
{
    if s.len() == 0 {
        assert(al_put(s, k, v) =~= s.push((k, v)));
    } else {
        assert(forall|t: int| 0 <= t < s.skip(1).len() ==> s.skip(1)[t].0 == s[t + 1].0);
        lemma_al_put_append(s.skip(1), k, v);
        assert(al_put(s, k, v) =~= s.push((k, v)));
    }
}

/// The first entry bound to `k`, under unique keys, is the only one:
/// lookup lands on it.
pub proof fn lemma_alv_first<V>(s: Seq<(Seq<char>, V)>, k: Seq<char>, j: int)
    requires
        alv_uniq(s),
        0 <= j < s.len(),
        s[j].0 == k,
    ensures
        alv_has(s, k),
        alv_ix(s, k) == j,
        alv_get(s, k) == s[j].1,
{
    assert(alv_has(s, k));
    let jj = alv_ix(s, k);
    assert(0 <= jj < s.len() && s[jj].0 == k);
    if jj < j {
        assert(s[jj].0 != s[j].0);
    } else if jj > j {
        assert(s[j].0 != s[jj].0);
    }
}

/// Unbinds `k`: drops the first entry carrying `k`, if any.
pub open spec fn al_del<V>(s: Seq<(Seq<char>, V)>, k: Seq<char>) -> Seq<(Seq<char>, V)>
    decreases s.len(),
{
    if s.len() == 0 {
        s
    } else if s[0].0 == k {
        s.skip(1)
    } else {
        seq![s[0]] + al_del(s.skip(1), k)
    }
}

/// Deleting an existing key removes exactly its first entry.
pub proof fn lemma_al_del_found<V>(s: Seq<(Seq<char>, V)>, k: Seq<char>, j: int)
    requires
        0 <= j < s.len(),
        s[j].0 == k,
        forall|t: int| 0 <= t < j ==> s[t].0 != k,
    ensures
        al_del(s, k) == s.take(j) + s.skip(j + 1),
    decreases j,
{
    if j == 0 {
        assert(al_del(s, k) =~= s.take(0) + s.skip(1));
    } else {
        assert(forall|t: int| 0 <= t < j - 1 ==> s.skip(1)[t].0 == s[t + 1].0);
        lemma_al_del_found(s.skip(1), k, j - 1);
        assert(al_del(s, k) =~= s.take(j) + s.skip(j + 1));
    }
}

/// Deleting an absent key changes nothing.
pub proof fn lemma_al_del_absent<V>(s: Seq<(Seq<char>, V)>, k: Seq<char>)
    requires
        forall|t: int| 0 <= t < s.len() ==> s[t].0 != k,
    ensures
        al_del(s, k) == s,
    decreases s.len(),
{
    if s.len() > 0 {
        assert(forall|t: int| 0 <= t < s.skip(1).len() ==> s.skip(1)[t].0 == s[t + 1].0);
        lemma_al_del_absent(s.skip(1), k);
        assert(al_del(s, k) =~= s);
    }
}

/// Every entry after a put is the new pair or one of the old entries.
pub proof fn lemma_al_put_elems<V>(s: Seq<(Seq<char>, V)>, k: Seq<char>, v: V)
    ensures
        forall|i: int|
            0 <= i < al_put(s, k, v).len() ==> ((#[trigger] al_put(s, k, v)[i]) == (k, v)
                || exists|j: int| 0 <= j < s.len() && al_put(s, k, v)[i] == s[j]),
    decreases s.len(),
{
    if s.len() == 0 {
    } else if s[0].0 == k {
        assert forall|i: int|
            0 <= i < al_put(s, k, v).len() implies ((#[trigger] al_put(s, k, v)[i]) == (k, v)
                || exists|j: int| 0 <= j < s.len() && al_put(s, k, v)[i] == s[j]) by {
            if i > 0 {
                assert(al_put(s, k, v)[i] == s[i]);
            }
        }
    } else {
        lemma_al_put_elems(s.skip(1), k, v);
        let u = al_put(s.skip(1), k, v);
        assert forall|i: int|
            0 <= i < al_put(s, k, v).len() implies ((#[trigger] al_put(s, k, v)[i]) == (k, v)
                || exists|j: int| 0 <= j < s.len() && al_put(s, k, v)[i] == s[j]) by {
            if i > 0 {
                assert(al_put(s, k, v)[i] == u[i - 1]);
                if u[i - 1] != (k, v) {
                    let j = choose|j: int| 0 <= j < s.skip(1).len() && u[i - 1] == s.skip(1)[j];
                    assert(al_put(s, k, v)[i] == s[j + 1]);
                }
            }
        }
    }
}

/// What binding a key does to lookups: the key now maps to the new value,
/// every other key is untouched, and unique keys stay unique.
pub proof fn lemma_al_put_semantics<V>(s: Seq<(Seq<char>, V)>, k: Seq<char>, v: V)
    requires
        alv_uniq(s),
    ensures
        alv_uniq(al_put(s, k, v)),
        alv_has(al_put(s, k, v), k),
        alv_get(al_put(s, k, v), k) == v,
        forall|k2: Seq<char>| k2 != k ==> alv_has(al_put(s, k, v), k2) == alv_has(s, k2),
        forall|k2: Seq<char>|
            k2 != k && alv_has(s, k2) ==> alv_get(al_put(s, k, v), k2) == alv_get(s, k2),
{
    if alv_has(s, k) {
        let j = alv_ix(s, k);
        assert(0 <= j < s.len() && s[j].0 == k);
        assert forall|t: int| 0 <= t < j implies s[t].0 != k by {
            if s[t].0 == k {
                assert(s[t].0 != s[j].0);
            }
        }
        lemma_al_put_replace(s, k, v, j);
        let u = s.update(j, (k, v));
        assert forall|x: int, y: int| 0 <= x < y < u.len() implies u[x].0 != u[y].0 by {
            assert(s[x].0 != s[y].0);
            assert(u[x].0 == if x == j { k } else { s[x].0 });
            assert(u[y].0 == if y == j { k } else { s[y].0 });
        }
        lemma_alv_first(u, k, j);
        assert forall|k2: Seq<char>| k2 != k implies alv_has(u, k2) == alv_has(s, k2) by {
            if alv_has(u, k2) {
                let t = choose|t: int| 0 <= t < u.len() && u[t].0 == k2;
                assert(t != j);
                assert(s[t].0 == k2);
            }
            if alv_has(s, k2) {
                let t = choose|t: int| 0 <= t < s.len() && s[t].0 == k2;
                assert(t != j);
                assert(u[t].0 == k2);
            }
        }
        assert forall|k2: Seq<char>|
            k2 != k && alv_has(s, k2) implies alv_get(u, k2) == alv_get(s, k2) by {
            let t = choose|t: int| 0 <= t < s.len() && s[t].0 == k2;
            assert(t != j);
            assert(u[t].0 == k2);
            lemma_alv_first(u, k2, t);
            lemma_alv_first(s, k2, t);
        }
    } else {
        assert(forall|t: int| 0 <= t < s.len() ==> (#[trigger] s[t]).0 != k);
        lemma_al_put_append(s, k, v);
        let u = s.push((k, v));
        assert forall|x: int, y: int| 0 <= x < y < u.len() implies u[x].0 != u[y].0 by {
            if y < u.len() - 1 {
                assert(s[x].0 != s[y].0);
            } else {
                assert(u[x].0 == s[x].0);
            }
        }
        lemma_alv_first(u, k, s.len() as int);
        assert forall|k2: Seq<char>| k2 != k implies alv_has(u, k2) == alv_has(s, k2) by {
            if alv_has(u, k2) {
                let t = choose|t: int| 0 <= t < u.len() && u[t].0 == k2;
                assert(t != s.len());
                assert(s[t].0 == k2);
            }
            if alv_has(s, k2) {
                let t = choose|t: int| 0 <= t < s.len() && s[t].0 == k2;
                assert(u[t].0 == k2);
            }
        }
        assert forall|k2: Seq<char>|
            k2 != k && alv_has(s, k2) implies alv_get(u, k2) == alv_get(s, k2) by {
            let t = choose|t: int| 0 <= t < s.len() && s[t].0 == k2;
            assert(u[t].0 == k2);
            lemma_alv_first(u, k2, t);
            lemma_alv_first(s, k2, t);
        }
    }
}

} // verus!
