//! Association lists in which the latest entry for a key wins: the storage
//! model behind every provider and instance table of the registry.
use vstd::prelude::*;

verus! {

/// The value of the latest entry for `k`, if any.
pub open spec fn latest<K, V>(s: Seq<(K, V)>, k: K) -> Option<V>
    decreases s.len(),
{
    if s.len() == 0 {
        None
    } else if s.last().0 == k {
        Some(s.last().1)
    } else {
        latest(s.drop_last(), k)
    }
}

/// Appending an entry makes it the latest for its key and leaves other keys alone.
pub proof fn lemma_latest_push<K, V>(s: Seq<(K, V)>, e: (K, V), k: K)
    ensures
        latest(s.push(e), k) == if e.0 == k { Some(e.1) } else { latest(s, k) },
{
    assert(s.push(e).drop_last() =~= s);
}

/// Entries after position `i` that do not hold `k` do not affect its lookup.
pub proof fn lemma_latest_prefix<K, V>(s: Seq<(K, V)>, k: K, i: int)
    requires
        0 <= i <= s.len(),
        forall|j: int| i <= j < s.len() ==> s[j].0 != k,
    ensures
        latest(s, k) == latest(s.take(i), k),
    decreases s.len() - i,
{
    if i < s.len() {
        assert(s.drop_last().take(i) =~= s.take(i));
        lemma_latest_prefix(s.drop_last(), k, i);
    } else {
        assert(s.take(i) =~= s);
    }
}

/// A found latest entry is at the last position holding its key.
pub proof fn lemma_latest_at<K, V>(s: Seq<(K, V)>, k: K, i: int)
    requires
        0 <= i < s.len(),
        s[i].0 == k,
        forall|j: int| i < j < s.len() ==> s[j].0 != k,
    ensures
        latest(s, k) == Some(s[i].1),
{
    lemma_latest_prefix(s, k, i + 1);
    assert(s.take(i + 1).drop_last() =~= s.take(i));
}

/// Overwriting the latest entry of `k` in place changes only the lookup of `k`.
pub proof fn lemma_latest_update<K, V>(s: Seq<(K, V)>, k: K, i: int, v: V, k2: K)
    requires
        0 <= i < s.len(),
        s[i].0 == k,
        forall|j: int| i < j < s.len() ==> s[j].0 != k,
    ensures
        latest(s.update(i, (k, v)), k2) == if k2 == k { Some(v) } else { latest(s, k2) },
    decreases s.len(),
{
    let t = s.update(i, (k, v));
    if i == s.len() - 1 {
        assert(t.drop_last() =~= s.drop_last());
    } else {
        assert(t.drop_last() =~= s.drop_last().update(i, (k, v)));
        lemma_latest_update(s.drop_last(), k, i, v, k2);
    }
}

/// No entry holds `k`, so it has no latest value.
pub proof fn lemma_latest_absent<K, V>(s: Seq<(K, V)>, k: K)
    requires
        forall|j: int| 0 <= j < s.len() ==> s[j].0 != k,
    ensures
        latest(s, k) is None,
{
    lemma_latest_prefix(s, k, 0);
}

/// Keeps the entries whose key is not `k`.
pub open spec fn other_keys<K, V>(k: K) -> spec_fn((K, V)) -> bool {
    |e: (K, V)| e.0 != k
}

/// Dropping every entry of `k` removes it and keeps all other lookups.
pub proof fn lemma_latest_filter<K, V>(s: Seq<(K, V)>, k: K, k2: K)
    ensures
        latest(s.filter(other_keys(k)), k2) == if k2 == k { None } else { latest(s, k2) },
    decreases s.len(),
{
    reveal_with_fuel(Seq::filter, 1);
    if s.len() > 0 {
        lemma_latest_filter(s.drop_last(), k, k2);
        let f = other_keys::<K, V>(k);
        if f(s.last()) {
            assert(s.filter(f) =~= s.drop_last().filter(f).push(s.last()));
            lemma_latest_push(s.drop_last().filter(f), s.last(), k2);
        } else {
            assert(s.filter(f) =~= s.drop_last().filter(f));
        }
    }
}

/// Filtering one more element extends the filtered prefix.
pub proof fn lemma_filter_take<A>(s: Seq<A>, f: spec_fn(A) -> bool, i: int)
    requires
        0 <= i < s.len(),
    ensures
        s.take(i + 1).filter(f) == if f(s[i]) {
            s.take(i).filter(f).push(s[i])
        } else {
            s.take(i).filter(f)
        },
{
    reveal_with_fuel(Seq::filter, 1);
    assert(s.take(i + 1).drop_last() =~= s.take(i));
}

} // verus!
