//! Laws of grouping that hold for every source and key function.
use crate::model::{
    aggregates, count_of, group_of, is_run, keys_in, lemma_group_len, lemma_group_push,
    lemma_no_key_no_group,
};
use vstd::prelude::*;

verus! {

/// Every item of the source stands in exactly one group, that of its key:
/// the key multiset of the source counts, for each key, exactly the items
/// of its group, and it has as many elements as the source has items. So a
/// pass that takes one step per item of each group takes one step per item
/// of the source.
pub proof fn lemma_groups_cover_source<T, K>(s: Seq<T>, key: spec_fn(T) -> K)
    ensures
        forall|k: K| #[trigger] s.map_values(key).to_multiset().count(k) == count_of(s, key, k),
        s.map_values(key).to_multiset().len() == s.len(),
    decreases s.len(),
{
    broadcast use vstd::seq_lib::group_to_multiset_ensures;

    if s.len() == 0 {
        assert(s.map_values(key) =~= Seq::empty());
    } else {
        let p = s.drop_last();
        lemma_groups_cover_source(p, key);
        assert(s.map_values(key) =~= p.map_values(key).push(key(s.last())));
        assert(s =~= p.push(s.last()));
        assert forall|k: K| #[trigger]
            s.map_values(key).to_multiset().count(k) == count_of(s, key, k) by {
            lemma_group_push(p, key, s.last(), k);
        }
    }
}

/// What a pass leaves has one entry for each distinct key of the source, and
/// none for an empty source.
pub proof fn lemma_distinct_keys<K, T, R>(
    m: Map<K, R>,
    step: spec_fn(K, Option<R>, T, R) -> bool,
    s: Seq<T>,
    key: spec_fn(T) -> K,
)
    requires
        aggregates(m, step, s, key),
    ensures
        m.dom() == s.map_values(key).to_set(),
        m.len() == s.map_values(key).to_set().len(),
        s.len() == 0 ==> m == Map::<K, R>::empty(),
{
    let ks = s.map_values(key);
    assert forall|k: K| keys_in(s, key).contains(k) implies ks.to_set().contains(k) by {
        let i = choose|i: int| 0 <= i < s.len() && key(s[i]) == k;
        assert(ks[i] == k);
    }
    assert forall|k: K| ks.to_set().contains(k) implies keys_in(s, key).contains(k) by {
        let i = choose|i: int| 0 <= i < ks.len() && ks[i] == k;
        assert(key(s[i]) == k);
    }
    assert(keys_in(s, key) =~= ks.to_set());
    if s.len() == 0 {
        assert(m.dom() =~= Set::<K>::empty());
        assert(m =~= Map::<K, R>::empty());
    }
}

/// The first item of a key's group is the first item of the source that
/// bears the key.
pub proof fn lemma_group_starts_at_first<T, K>(s: Seq<T>, key: spec_fn(T) -> K, j: int)
    requires
        0 <= j < s.len(),
        forall|i: int| 0 <= i < j ==> key(#[trigger] s[i]) != key(s[j]),
    ensures
        group_of(s, key, key(s[j])).len() > 0,
        group_of(s, key, key(s[j]))[0] == s[j],
    decreases s.len(),
{
    let k = key(s[j]);
    let p = s.drop_last();
    if j == s.len() - 1 {
        assert forall|i: int| 0 <= i < p.len() implies key(#[trigger] p[i]) != k by {
            assert(p[i] == s[i]);
        }
        lemma_no_key_no_group(p, key, k);
    } else {
        assert(p[j] == s[j]);
        assert forall|i: int| 0 <= i < j implies key(#[trigger] p[i]) != key(p[j]) by {
            assert(p[i] == s[i]);
        }
        lemma_group_starts_at_first(p, key, j);
        lemma_group_len(p, key, k);
    }
    assert(s =~= p.push(s.last()));
    lemma_group_push(p, key, s.last(), k);
}

/// In what a pass leaves, the seed path of each key was taken once, on the
/// first item of the source that bears the key; every later item of the key
/// was combined into the accumulator before it.
pub proof fn lemma_seed_on_first<K, T, R>(
    m: Map<K, R>,
    step: spec_fn(K, Option<R>, T, R) -> bool,
    s: Seq<T>,
    key: spec_fn(T) -> K,
    j: int,
)
    requires
        aggregates(m, step, s, key),
        0 <= j < s.len(),
        forall|i: int| 0 <= i < j ==> key(#[trigger] s[i]) != key(s[j]),
    ensures
        m.contains_key(key(s[j])),
        exists|accs: Seq<R>|
            #[trigger] is_run(step, key(s[j]), group_of(s, key, key(s[j])), accs) && step(
                key(s[j]),
                None,
                s[j],
                accs[0],
            ) && accs.last() == m[key(s[j])],
{
    assert(keys_in(s, key).contains(key(s[j])));
    lemma_group_starts_at_first(s, key, j);
}

/// A step relation that gives at most one result for each key, accumulator
/// and item.
pub open spec fn step_is_function<K, T, R>(step: spec_fn(K, Option<R>, T, R) -> bool) -> bool {
    forall|k: K, a: Option<R>, t: T, r1: R, r2: R|
        #[trigger] step(k, a, t, r1) && #[trigger] step(k, a, t, r2) ==> r1 == r2
}

proof fn lemma_runs_agree<K, T, R>(
    step: spec_fn(K, Option<R>, T, R) -> bool,
    k: K,
    items: Seq<T>,
    accs1: Seq<R>,
    accs2: Seq<R>,
    i: int,
)
    requires
        step_is_function(step),
        is_run(step, k, items, accs1),
        is_run(step, k, items, accs2),
        0 <= i < items.len(),
    ensures
        accs1[i] == accs2[i],
    decreases i,
{
    if i == 0 {
        assert(step(k, None, items[0], accs1[0]) && step(k, None, items[0], accs2[0]));
    } else {
        lemma_runs_agree(step, k, items, accs1, accs2, i - 1);
        assert(step(k, Some(accs1[i - 1]), items[i], accs1[i]));
        assert(step(k, Some(accs2[i - 1]), items[i], accs2[i]));
    }
}

/// Two passes over the same source with the same deterministic operations
/// give the same mapping.
pub proof fn lemma_passes_agree<K, T, R>(
    step: spec_fn(K, Option<R>, T, R) -> bool,
    s: Seq<T>,
    key: spec_fn(T) -> K,
    m1: Map<K, R>,
    m2: Map<K, R>,
)
    requires
        step_is_function(step),
        aggregates(m1, step, s, key),
        aggregates(m2, step, s, key),
    ensures
        m1 == m2,
{
    assert forall|k: K| #[trigger] m1.contains_key(k) implies m1[k] == m2[k] by {
        let g = group_of(s, key, k);
        assert(m2.contains_key(k));
        let accs1 = choose|accs: Seq<R>| #[trigger]
            is_run(step, k, g, accs) && accs.len() > 0 && accs.last() == m1[k];
        let accs2 = choose|accs: Seq<R>| #[trigger]
            is_run(step, k, g, accs) && accs.len() > 0 && accs.last() == m2[k];
        lemma_runs_agree(step, k, g, accs1, accs2, g.len() - 1);
    }
    assert(m1 =~= m2);
}

} // verus!
