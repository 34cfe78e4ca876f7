//! A keyed table modeled as a sequence of key/value pairs.
//!
//! The engines keep each storage table as a `Vec` of pairs. These spec
//! functions give such a sequence its map reading: `val_of` is the value under
//! a key (the last pair wins, which coincides with the unique pair whenever
//! `unique_keys` holds), `remove_key` drops every pair under a key, and the
//! lemmas relate the two and in-place updates to that reading.

use vstd::prelude::*;

verus! {

/// The value stored under `k`, if any. When a key occurs twice the later pair
/// wins; under `unique_keys` there is at most one.
pub open spec fn val_of<K, V>(s: Seq<(K, V)>, k: K) -> Option<V>
    decreases s.len(),
{
    if s.len() == 0 {
        None
    } else if s.last().0 == k {
        Some(s.last().1)
    } else {
        val_of(s.drop_last(), k)
    }
}

/// Whether some pair of `s` carries the key `k`.
pub open spec fn has_key<K, V>(s: Seq<(K, V)>, k: K) -> bool {
    val_of(s, k) is Some
}

/// `s` with every pair under `k` removed.
pub open spec fn remove_key<K, V>(s: Seq<(K, V)>, k: K) -> Seq<(K, V)>
    decreases s.len(),
{
    if s.len() == 0 {
        s
    } else if s.last().0 == k {
        remove_key(s.drop_last(), k)
    } else {
        remove_key(s.drop_last(), k).push(s.last())
    }
}

/// No two pairs of `s` carry the same key.
pub open spec fn unique_keys<K, V>(s: Seq<(K, V)>) -> bool {
    forall|i: int, j: int|
        0 <= i < j < s.len() ==> (#[trigger] s[i]).0 != (#[trigger] s[j]).0
}

/// If `val_of` finds something in `s`, some pair of `s` carries that key.
pub proof fn lemma_val_of_implies_index<K, V>(s: Seq<(K, V)>, k: K)
    requires
        has_key(s, k),
    ensures
        exists|i: int| 0 <= i < s.len() && (#[trigger] s[i]).0 == k,
    decreases s.len(),
{
    if s.last().0 == k {
        assert(s[s.len() - 1].0 == k);
    } else {
        lemma_val_of_implies_index(s.drop_last(), k);
        let i = choose|i: int| 0 <= i < s.drop_last().len() && (#[trigger] s.drop_last()[i]).0 == k;
        assert(s[i].0 == k);
    }
}

/// If a pair of `s` carries `k`, `val_of` finds something.
pub proof fn lemma_index_implies_val_of<K, V>(s: Seq<(K, V)>, k: K, i: int)
    requires
        0 <= i < s.len(),
        s[i].0 == k,
    ensures
        has_key(s, k),
    decreases s.len(),
{
    if s.last().0 != k {
        lemma_index_implies_val_of(s.drop_last(), k, i);
    }
}

/// Overwriting the unique pair under `k` in place changes `val_of` at `k` and
/// nowhere else, and keeps the keys unique.
pub proof fn lemma_val_of_update<K, V>(s: Seq<(K, V)>, i: int, k: K, v: V)
    requires
        unique_keys(s),
        0 <= i < s.len(),
        s[i].0 == k,
    ensures
        unique_keys(s.update(i, (k, v))),
        forall|m: K|
            #[trigger] val_of(s.update(i, (k, v)), m) == if m == k {
                Some(v)
            } else {
                val_of(s, m)
            },
    decreases s.len(),
{
    let t = s.update(i, (k, v));
    assert(forall|j: int| 0 <= j < s.len() && j != i ==> t[j] == s[j]);
    if i == s.len() - 1 {
        assert(t.drop_last() =~= s.drop_last());
        assert forall|m: K| m != k implies #[trigger] val_of(t, m) == val_of(s, m) by {
            assert(val_of(t, m) == val_of(t.drop_last(), m));
        }
    } else {
        assert(t.drop_last() =~= s.drop_last().update(i, (k, v)));
        assert(t.last() == s.last());
        assert(s.last().0 != k);
        lemma_val_of_update(s.drop_last(), i, k, v);
        assert forall|m: K|
            #[trigger] val_of(t, m) == (if m == k {
                Some(v)
            } else {
                val_of(s, m)
            }) by {
            if t.last().0 == m {
            } else {
                assert(val_of(t, m) == val_of(t.drop_last(), m));
                assert(val_of(s, m) == val_of(s.drop_last(), m));
            }
        }
    }
}

/// Appending a fresh pair adds its key and changes nothing else.
pub proof fn lemma_val_of_push<K, V>(s: Seq<(K, V)>, k: K, v: V)
    ensures
        val_of(s.push((k, v)), k) == Some(v),
        forall|m: K| m != k ==> #[trigger] val_of(s.push((k, v)), m) == val_of(s, m),
        unique_keys(s) && (forall|i: int| 0 <= i < s.len() ==> (#[trigger] s[i]).0 != k)
            ==> unique_keys(s.push((k, v))),
{
    let t = s.push((k, v));
    assert(t.drop_last() =~= s);
    assert(t.last() == (k, v));
    if unique_keys(s) && (forall|i: int| 0 <= i < s.len() ==> (#[trigger] s[i]).0 != k) {
        assert forall|i: int, j: int| 0 <= i < j < t.len() implies (#[trigger] t[i]).0 != (
        #[trigger] t[j]).0 by {
            if j < t.len() - 1 {
                assert(t[i] == s[i] && t[j] == s[j]);
            } else {
                assert(t[i] == s[i] && t[j] == (k, v));
            }
        }
    }
}

/// Removing a key that is not there changes nothing.
pub proof fn lemma_remove_key_absent<K, V>(s: Seq<(K, V)>, k: K)
    requires
        !has_key(s, k),
    ensures
        remove_key(s, k) =~= s,
    decreases s.len(),
{
    if s.len() > 0 {
        assert(s.last().0 != k);
        lemma_remove_key_absent(s.drop_last(), k);
    }
}

/// With unique keys, removing the key of the pair at index `i` is the same as
/// removing that one pair.
pub proof fn lemma_remove_key_at_index<K, V>(s: Seq<(K, V)>, i: int)
    requires
        unique_keys(s),
        0 <= i < s.len(),
    ensures
        remove_key(s, s[i].0) =~= s.remove(i),
    decreases s.len(),
{
    let k = s[i].0;
    let d = s.drop_last();
    if i == s.len() - 1 {
        assert(s.last().0 == k);
        assert(!has_key(d, k)) by {
            if has_key(d, k) {
                lemma_val_of_implies_index(d, k);
                let j = choose|j: int| 0 <= j < d.len() && (#[trigger] d[j]).0 == k;
                assert(s[j].0 == s[i].0);
            }
        }
        lemma_remove_key_absent(d, k);
        assert(s.remove(i) =~= d);
    } else {
        assert(s.last().0 != k);
        lemma_remove_key_at_index(d, i);
        assert(remove_key(s, k) =~= d.remove(i).push(s.last()));
        assert(d.remove(i).push(s.last()) =~= s.remove(i));
    }
}

/// Removing a key empties `val_of` at that key, leaves every other key as it
/// was, keeps the keys unique, and never grows the sequence.
pub proof fn lemma_remove_key<K, V>(s: Seq<(K, V)>, k: K)
    requires
        unique_keys(s),
    ensures
        unique_keys(remove_key(s, k)),
        val_of(remove_key(s, k), k) is None,
        forall|m: K| m != k ==> #[trigger] val_of(remove_key(s, k), m) == val_of(s, m),
        remove_key(s, k).len() <= s.len(),
        forall|i: int|
            0 <= i < remove_key(s, k).len() ==> s.contains(#[trigger] remove_key(s, k)[i]),
    decreases s.len(),
{
    if s.len() == 0 {
    } else {
        let d = s.drop_last();
        let r = remove_key(s, k);
        let rd = remove_key(d, k);
        lemma_remove_key(d, k);
        assert(forall|i: int| 0 <= i < d.len() ==> #[trigger] d[i] == s[i]);
        if s.last().0 == k {
            assert(forall|i: int| 0 <= i < rd.len() ==> s.contains(#[trigger] rd[i])) by {
                assert(forall|p: (K, V)| d.contains(p) ==> s.contains(p));
            }
            assert forall|m: K| m != k implies #[trigger] val_of(remove_key(s, k), m) == val_of(
                s,
                m,
            ) by {
                assert(val_of(s, m) == val_of(d, m));
            }
        } else {
            assert(r.drop_last() =~= rd);
            assert(r.last() == s.last());
            assert(forall|i: int| 0 <= i < rd.len() ==> #[trigger] r[i] == rd[i]);
            assert(r[r.len() - 1] == s[s.len() - 1]);
            assert(forall|p: (K, V)| d.contains(p) ==> s.contains(p));
            assert(forall|i: int| 0 <= i < r.len() ==> s.contains(#[trigger] r[i]));
            assert forall|i: int| 0 <= i < rd.len() implies (#[trigger] rd[i]).0 != s.last().0 by {
                assert(d.contains(rd[i]));
                let ii = choose|ii: int| 0 <= ii < d.len() && d[ii] == rd[i];
                assert(s[ii] == rd[i]);
                assert(s[ii].0 != s[s.len() - 1].0);
            }
            assert forall|i: int, j: int| 0 <= i < j < r.len() implies (#[trigger] r[i]).0 != (
            #[trigger] r[j]).0 by {
                if j < r.len() - 1 {
                    assert(rd[i].0 != rd[j].0);
                } else {
                    assert(r[i] == rd[i]);
                    assert(r[j] == s.last());
                }
            }
            assert forall|m: K| m != k implies #[trigger] val_of(remove_key(s, k), m) == val_of(
                s,
                m,
            ) by {
                if r.last().0 == m {
                } else {
                    assert(val_of(r, m) == val_of(rd, m));
                    assert(val_of(s, m) == val_of(d, m));
                }
            }
            assert(val_of(r, k) == val_of(rd, k));
        }
    }
}

} // verus!
