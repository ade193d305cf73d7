//! Mathematical model of grouping: the keys of a source, the items that share
//! a key, and runs of a combining step over those items.
use vstd::prelude::*;

verus! {

/// A key selector that may be called on any item and gives each item one key.
pub open spec fn selects_keys<T, K, Ks: Fn(&T) -> K>(ks: Ks) -> bool {
    &&& forall|t: &T| #[trigger] ks.requires((t,))
    &&& forall|t: &T, k1: K, k2: K|
        #[trigger] ks.ensures((t,), k1) && #[trigger] ks.ensures((t,), k2) ==> k1 == k2
}

/// The key that a key selector gives for an item.
pub open spec fn key_by<T, K, Ks: Fn(&T) -> K>(ks: Ks, t: T) -> K {
    choose|k: K| ks.ensures((&t,), k)
}

/// The key selector seen as a mathematical function.
pub open spec fn key_fn<T, K, Ks: Fn(&T) -> K>(ks: Ks) -> spec_fn(T) -> K {
    |t: T| key_by(ks, t)
}

/// Each item of `s` was given its key by the selector: the key of each item
/// is a result of the selector on it.
pub open spec fn keys_known<T, K, Ks: Fn(&T) -> K>(ks: Ks, s: Seq<T>) -> bool {
    forall|i: int| 0 <= i < s.len() ==> #[trigger] ks.ensures((&s[i],), key_by(ks, s[i]))
}

/// A new item keyed by a call of the selector keeps every key known.
pub proof fn lemma_keys_known_push<T, K, Ks: Fn(&T) -> K>(ks: Ks, s: Seq<T>, t: T, k: K)
    requires
        selects_keys(ks),
        keys_known(ks, s),
        ks.ensures((&t,), k),
    ensures
        keys_known(ks, s.push(t)),
        key_by(ks, t) == k,
{
    let s2 = s.push(t);
    assert forall|i: int| 0 <= i < s2.len() implies #[trigger] ks.ensures(
        (&s2[i],),
        key_by(ks, s2[i]),
    ) by {
        if i < s.len() {
            assert(s2[i] == s[i]);
        }
    }
}

/// The keys that occur in a source.
pub open spec fn keys_in<T, K>(s: Seq<T>, key: spec_fn(T) -> K) -> Set<K> {
    Set::new(|k: K| exists|i: int| 0 <= i < s.len() && key(s[i]) == k)
}

/// The items of a source whose key is `k`, in source order.
pub open spec fn group_of<T, K>(s: Seq<T>, key: spec_fn(T) -> K, k: K) -> Seq<T> {
    s.filter(|t: T| key(t) == k)
}

/// How many items of a source have the key `k`.
pub open spec fn count_of<T, K>(s: Seq<T>, key: spec_fn(T) -> K, k: K) -> nat {
    group_of(s, key, k).len()
}

/// `accs[i]` is the accumulator after the step on `items[i]`: the first step
/// sees no accumulator, each later one sees the accumulator before it.
pub open spec fn is_run<K, T, R>(
    step: spec_fn(K, Option<R>, T, R) -> bool,
    k: K,
    items: Seq<T>,
    accs: Seq<R>,
) -> bool {
    &&& accs.len() == items.len()
    &&& items.len() > 0 ==> step(k, None, items[0], accs[0])
    &&& forall|i: int|
        0 < i < items.len() ==> #[trigger] step(k, Some(accs[i - 1]), items[i], accs[i])
}

/// `r` is what a run of `step` over the nonempty `items` ends with.
pub open spec fn folds_to<K, T, R>(
    step: spec_fn(K, Option<R>, T, R) -> bool,
    k: K,
    items: Seq<T>,
    r: R,
) -> bool {
    exists|accs: Seq<R>| #[trigger]
        is_run(step, k, items, accs) && accs.len() > 0 && accs.last() == r
}

/// A combining operation that may be called on any key, accumulator and item.
pub open spec fn combines<K, T, R, O: Fn(&K, Option<R>, T) -> R>(op: O) -> bool {
    forall|k: &K, a: Option<R>, t: T| #[trigger] op.requires((k, a, t))
}

/// The steps that a combining operation may take: `r` is a result of
/// `op(&k, a, t)`.
pub open spec fn op_step<K, T, R, O: Fn(&K, Option<R>, T) -> R>(op: O) -> spec_fn(
    K,
    Option<R>,
    T,
    R,
) -> bool {
    |k: K, a: Option<R>, t: T, r: R| op.ensures((&k, a, t), r)
}

/// Appending an item extends the group of its key and no other.
pub proof fn lemma_group_push<T, K>(s: Seq<T>, key: spec_fn(T) -> K, t: T, k: K)
    ensures
        group_of(s.push(t), key, k) == if key(t) == k {
            group_of(s, key, k).push(t)
        } else {
            group_of(s, key, k)
        },
{
    s.lemma_filter_push(t, |x: T| key(x) == k);
}

/// A group is no longer than its source.
pub proof fn lemma_group_len<T, K>(s: Seq<T>, key: spec_fn(T) -> K, k: K)
    ensures
        group_of(s, key, k).len() <= s.len(),
    decreases s.len(),
{
    if s.len() > 0 {
        let p = s.drop_last();
        lemma_group_len(p, key, k);
        assert(s =~= p.push(s.last()));
        lemma_group_push(p, key, s.last(), k);
    }
}

/// Appending an item adds its key to the keys of the source.
proof fn lemma_keys_push<T, K>(s: Seq<T>, key: spec_fn(T) -> K, t: T)
    ensures
        keys_in(s.push(t), key) == keys_in(s, key).insert(key(t)),
{
    let s2 = s.push(t);
    let grown = keys_in(s, key).insert(key(t));
    assert forall|k: K| keys_in(s2, key).contains(k) implies grown.contains(k) by {
        let i = choose|i: int| 0 <= i < s2.len() && key(s2[i]) == k;
        if i < s.len() {
            assert(s2[i] == s[i]);
        }
    }
    assert forall|k: K| grown.contains(k) implies keys_in(s2, key).contains(k) by {
        if k == key(t) {
            assert(s2[s.len() as int] == t);
        } else {
            let i = choose|i: int| 0 <= i < s.len() && key(s[i]) == k;
            assert(s2[i] == s[i]);
        }
    }
    assert(keys_in(s2, key) =~= keys_in(s, key).insert(key(t)));
}

/// Steps of `fold_with_key`: the first item of a key is combined into the
/// seed that `seed` selects for it, later ones into the accumulator.
pub open spec fn seeded_step<K, T, R, S: Fn(&K, &T) -> R, O: Fn(&K, R, T) -> R>(
    seed: S,
    op: O,
) -> spec_fn(K, Option<R>, T, R) -> bool {
    |k: K, a: Option<R>, t: T, r: R|
        match a {
            None => exists|s: R| #[trigger] seed.ensures((&k, &t), s) && op.ensures((&k, s, t), r),
            Some(x) => op.ensures((&k, x, t), r),
        }
}

/// Steps of `fold_with`: the seed of a new key comes from `provider`.
pub open spec fn provided_step<K, T, R, P: Fn() -> R, O: Fn(&K, R, T) -> R>(
    provider: P,
    op: O,
) -> spec_fn(K, Option<R>, T, R) -> bool {
    |k: K, a: Option<R>, t: T, r: R|
        match a {
            None => exists|s: R| #[trigger] provider.ensures((), s) && op.ensures((&k, s, t), r),
            Some(x) => op.ensures((&k, x, t), r),
        }
}

/// Steps of `fold`: the seed of a new key is a clone of `init`.
pub open spec fn fold_step<K, T, R: Clone, O: Fn(R, T) -> R>(init: R, op: O) -> spec_fn(
    K,
    Option<R>,
    T,
    R,
) -> bool {
    |k: K, a: Option<R>, t: T, r: R|
        match a {
            None => exists|c: R| #[trigger] cloned(init, c) && op.ensures((c, t), r),
            Some(x) => op.ensures((x, t), r),
        }
}

/// `r` is what converting `t` gives.
pub open spec fn converted<T: Into<R>, R>(t: T, r: R) -> bool {
    call_ensures(T::into, (t,), r)
}

/// Steps of `reduce_with_key`: the first item of a key, converted, is its
/// accumulator; later items are combined into it.
pub open spec fn first_step<K, T: Into<R>, R, O: Fn(&K, R, T) -> R>(op: O) -> spec_fn(
    K,
    Option<R>,
    T,
    R,
) -> bool {
    |k: K, a: Option<R>, t: T, r: R|
        match a {
            None => converted(t, r),
            Some(x) => op.ensures((&k, x, t), r),
        }
}

/// Steps of `reduce`: as `first_step`, with an operation that ignores the key.
pub open spec fn reduce_step<K, T: Into<R>, R, O: Fn(R, T) -> R>(op: O) -> spec_fn(
    K,
    Option<R>,
    T,
    R,
) -> bool {
    |k: K, a: Option<R>, t: T, r: R|
        match a {
            None => converted(t, r),
            Some(x) => op.ensures((x, t), r),
        }
}

/// Steps of counting: one on the first item, one more on each later item.
pub open spec fn count_step<K, T>() -> spec_fn(K, Option<usize>, T, usize) -> bool {
    |k: K, a: Option<usize>, t: T, r: usize|
        match a {
            None => r == 1,
            Some(x) => x < usize::MAX ==> r == x + 1,
        }
}

/// Steps of an operation that borrows each item: `r` is a result of
/// `op(&k, a, &t)`.
pub open spec fn ref_op_step<K, T, R, O: Fn(&K, Option<R>, &T) -> R>(op: O) -> spec_fn(
    K,
    Option<R>,
    T,
    R,
) -> bool {
    |k: K, a: Option<R>, t: T, r: R| op.ensures((&k, a, &t), r)
}

/// Steps of a borrowing `fold_with_key`.
pub open spec fn seeded_ref_step<K, T, R, S: Fn(&K, &T) -> R, O: Fn(&K, R, &T) -> R>(
    seed: S,
    op: O,
) -> spec_fn(K, Option<R>, T, R) -> bool {
    |k: K, a: Option<R>, t: T, r: R|
        match a {
            None => exists|s: R| #[trigger] seed.ensures((&k, &t), s) && op.ensures((&k, s, &t), r),
            Some(x) => op.ensures((&k, x, &t), r),
        }
}

/// Steps of a borrowing `fold`.
pub open spec fn fold_ref_step<K, T, R: Clone, O: Fn(R, &T) -> R>(init: R, op: O) -> spec_fn(
    K,
    Option<R>,
    T,
    R,
) -> bool {
    |k: K, a: Option<R>, t: T, r: R|
        match a {
            None => exists|c: R| #[trigger] cloned(init, c) && op.ensures((c, &t), r),
            Some(x) => op.ensures((x, &t), r),
        }
}

/// Steps of a borrowing `reduce_with_key`: a clone of the first item,
/// converted, is the accumulator.
pub open spec fn first_ref_step<K, T: Clone + Into<R>, R, O: Fn(&K, R, &T) -> R>(
    op: O,
) -> spec_fn(K, Option<R>, T, R) -> bool {
    |k: K, a: Option<R>, t: T, r: R|
        match a {
            None => exists|c: T| #[trigger] cloned(t, c) && converted(c, r),
            Some(x) => op.ensures((&k, x, &t), r),
        }
}

/// What holds of every step of `s1` holds of the matching step of `s2`.
pub open spec fn step_implies<K, T, R>(
    s1: spec_fn(K, Option<R>, T, R) -> bool,
    s2: spec_fn(K, Option<R>, T, R) -> bool,
) -> bool {
    forall|k: K, a: Option<R>, t: T, r: R| #[trigger] s1(k, a, t, r) ==> s2(k, a, t, r)
}

/// A run of `s1` is a run of any `s2` that each step of `s1` implies.
proof fn lemma_folds_weaken<K, T, R>(
    s1: spec_fn(K, Option<R>, T, R) -> bool,
    s2: spec_fn(K, Option<R>, T, R) -> bool,
    k: K,
    items: Seq<T>,
    r: R,
)
    requires
        folds_to(s1, k, items, r),
        step_implies(s1, s2),
    ensures
        folds_to(s2, k, items, r),
{
    let accs = choose|accs: Seq<R>| #[trigger]
        is_run(s1, k, items, accs) && accs.len() > 0 && accs.last() == r;
    assert forall|i: int| 0 < i < items.len() implies #[trigger] s2(
        k,
        Some(accs[i - 1]),
        items[i],
        accs[i],
    ) by {
        assert(s1(k, Some(accs[i - 1]), items[i], accs[i]));
    }
    assert(is_run(s2, k, items, accs));
}

/// A counting run ends with the number of items it ran over.
proof fn lemma_count_run<K, T>(k: K, items: Seq<T>, accs: Seq<usize>, i: int)
    requires
        is_run(count_step(), k, items, accs),
        0 <= i < items.len(),
        items.len() <= usize::MAX,
    ensures
        accs[i] == i + 1,
    decreases i,
{
    if i > 0 {
        lemma_count_run(k, items, accs, i - 1);
        assert(count_step()(k, Some(accs[i - 1]), items[i], accs[i]));
    }
}

/// A counting run over at most `usize::MAX` items ends with their number.
proof fn lemma_count_folds<K, T>(k: K, items: Seq<T>, r: usize)
    requires
        folds_to(count_step(), k, items, r),
        items.len() <= usize::MAX,
    ensures
        r == items.len(),
{
    let accs = choose|accs: Seq<usize>| #[trigger]
        is_run(count_step(), k, items, accs) && accs.len() > 0 && accs.last() == r;
    lemma_count_run(k, items, accs, items.len() - 1);
}

/// A run extended by one step on a later item.
proof fn lemma_folds_push<K, T, R>(
    step: spec_fn(K, Option<R>, T, R) -> bool,
    k: K,
    items: Seq<T>,
    a: R,
    t: T,
    r: R,
)
    requires
        folds_to(step, k, items, a),
        step(k, Some(a), t, r),
    ensures
        folds_to(step, k, items.push(t), r),
{
    let accs = choose|accs: Seq<R>| #[trigger]
        is_run(step, k, items, accs) && accs.len() > 0 && accs.last() == a;
    let accs2 = accs.push(r);
    let items2 = items.push(t);
    assert forall|i: int| 0 < i < items2.len() implies #[trigger] step(
        k,
        Some(accs2[i - 1]),
        items2[i],
        accs2[i],
    ) by {
        if i < items.len() {
            assert(step(k, Some(accs[i - 1]), items[i], accs[i]));
        }
    }
    assert(is_run(step, k, items2, accs2));
}

/// A run of one step on the first item of a key.
proof fn lemma_folds_first<K, T, R>(step: spec_fn(K, Option<R>, T, R) -> bool, k: K, t: T, r: R)
    requires
        step(k, None, t, r),
    ensures
        folds_to(step, k, Seq::empty().push(t), r),
{
    let accs = Seq::empty().push(r);
    assert(is_run(step, k, Seq::empty().push(t), accs));
}

/// `m` is what a single pass of `step` over `s` leaves: one entry for each
/// key of `s`, holding what a run of `step` over that key's group ends with.
pub open spec fn aggregates<K, T, R>(
    m: Map<K, R>,
    step: spec_fn(K, Option<R>, T, R) -> bool,
    s: Seq<T>,
    key: spec_fn(T) -> K,
) -> bool {
    &&& m.dom() == keys_in(s, key)
    &&& forall|k: K| #[trigger]
        m.contains_key(k) ==> folds_to(step, k, group_of(s, key, k), m[k])
}

/// A key that no item of the source bears has an empty group.
pub proof fn lemma_no_key_no_group<T, K>(s: Seq<T>, key: spec_fn(T) -> K, k: K)
    requires
        !keys_in(s, key).contains(k),
    ensures
        group_of(s, key, k).len() == 0,
    decreases s.len(),
{
    if s.len() > 0 {
        let p = s.drop_last();
        assert(key(s[s.len() - 1]) != k);
        assert forall|i: int| 0 <= i < p.len() implies key(#[trigger] p[i]) != k by {
            assert(p[i] == s[i]);
        }
        lemma_no_key_no_group(p, key, k);
        assert(s =~= p.push(s.last()));
        lemma_group_push(p, key, s.last(), k);
    }
}

/// Nothing is aggregated from an empty source.
pub proof fn lemma_aggregates_empty<K, T, R>(
    step: spec_fn(K, Option<R>, T, R) -> bool,
    key: spec_fn(T) -> K,
)
    ensures
        aggregates(Map::<K, R>::empty(), step, Seq::<T>::empty(), key),
{
    assert(Map::<K, R>::empty().dom() =~= keys_in(Seq::<T>::empty(), key));
}

/// One step of a pass: the item's key gets the result of a step on the key's
/// accumulator so far (none on its first item), and every other key keeps its
/// entry.
pub proof fn lemma_aggregates_push<K, T, R>(
    m: Map<K, R>,
    step: spec_fn(K, Option<R>, T, R) -> bool,
    s: Seq<T>,
    key: spec_fn(T) -> K,
    t: T,
    r: R,
)
    requires
        aggregates(m, step, s, key),
        step(key(t), if m.contains_key(key(t)) { Some(m[key(t)]) } else { None }, t, r),
    ensures
        aggregates(m.insert(key(t), r), step, s.push(t), key),
{
    let m2 = m.insert(key(t), r);
    let s2 = s.push(t);
    lemma_keys_push(s, key, t);
    assert(m2.dom() =~= keys_in(s2, key));
    assert forall|k: K| #[trigger] m2.contains_key(k) implies folds_to(
        step,
        k,
        group_of(s2, key, k),
        m2[k],
    ) by {
        lemma_group_push(s, key, t, k);
        if k == key(t) {
            if m.contains_key(k) {
                lemma_folds_push(step, k, group_of(s, key, k), m[k], t, r);
            } else {
                lemma_no_key_no_group(s, key, k);
                assert(group_of(s, key, k) =~= Seq::empty());
                lemma_folds_first(step, k, t, r);
            }
        }
    }
}

/// What a pass of `s1` leaves is what a pass of any `s2` that each step of
/// `s1` implies leaves.
pub proof fn lemma_aggregates_weaken<K, T, R>(
    m: Map<K, R>,
    s1: spec_fn(K, Option<R>, T, R) -> bool,
    s2: spec_fn(K, Option<R>, T, R) -> bool,
    s: Seq<T>,
    key: spec_fn(T) -> K,
)
    requires
        aggregates(m, s1, s, key),
        step_implies(s1, s2),
    ensures
        aggregates(m, s2, s, key),
{
    assert forall|k: K| #[trigger] m.contains_key(k) implies folds_to(
        s2,
        k,
        group_of(s, key, k),
        m[k],
    ) by {
        lemma_folds_weaken(s1, s2, k, group_of(s, key, k), m[k]);
    }
}

/// What a counting pass leaves is the number of items of each key.
pub proof fn lemma_aggregates_count<K, T>(m: Map<K, usize>, s: Seq<T>, key: spec_fn(T) -> K)
    requires
        aggregates(m, count_step(), s, key),
        s.len() <= usize::MAX,
    ensures
        forall|k: K| #[trigger] m.contains_key(k) ==> m[k] == count_of(s, key, k),
{
    assert forall|k: K| #[trigger] m.contains_key(k) implies m[k] == count_of(s, key, k) by {
        lemma_group_len(s, key, k);
        lemma_count_folds(k, group_of(s, key, k), m[k]);
    }
}

} // verus!
