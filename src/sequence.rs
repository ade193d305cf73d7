//! The key-tagging sequence: a lazy source paired with a key selector, and the
//! aggregation engine that drains it.
use crate::model::{
    aggregates, combines, count_of, count_step, first_step, fold_step, key_fn, keys_in, keys_known,
    lemma_aggregates_count, lemma_aggregates_empty, lemma_aggregates_push,
    lemma_aggregates_weaken, lemma_keys_known_push, op_step, provided_step, reduce_step,
    seeded_step, selects_keys, step_implies,
};
use std::collections::HashMap;
use std::hash::Hash;
use vstd::prelude::*;
use vstd::std_specs::hash::obeys_key_model;
use vstd::std_specs::iter::IteratorSpec;

verus! {

/// A source iterator whose items are tagged with the key that the selector
/// gives them, one item at a time.
#[derive(Clone)]
#[verifier::reject_recursive_types(K)]
pub struct Grouping<I, Ks, K> where I: Iterator, Ks: Fn(&I::Item) -> K {
    pub iter: I,
    pub key_selector: Ks,
}

impl<I, Ks, K> Grouping<I, Ks, K> where I: Iterator, Ks: Fn(&I::Item) -> K {
    /// The key of each item, as a mathematical function.
    pub open spec fn key(&self) -> spec_fn(I::Item) -> K {
        key_fn(self.key_selector)
    }

    /// A source that ends and a key selector that gives each item one key.
    pub open spec fn well_formed(&self) -> bool {
        &&& self.iter.obeys_prophetic_iter_laws()
        &&& self.iter.decrease() is Some
        &&& selects_keys(self.key_selector)
    }

    /// Pairs a source with a key selector; nothing is pulled yet.
    pub fn new(iter: I, key_selector: Ks) -> (r: Self)
        ensures
            r.iter == iter,
            r.key_selector == key_selector,
    {
        Grouping { iter, key_selector }
    }

    /// Pulls one item from the source and tags it with its key.
    pub fn next(&mut self) -> (r: Option<(K, I::Item)>)
        requires
            old(self).well_formed(),
        ensures
            final(self).well_formed(),
            final(self).key_selector == old(self).key_selector,
            r matches Some((k, t)) ==> old(self).key_selector.ensures((&t,), k),
            old(self).iter.remaining().len() == 0 ==> r is None && final(self).iter.remaining()
                == old(self).iter.remaining(),
            old(self).iter.remaining().len() > 0 ==> {
                let t = old(self).iter.remaining()[0];
                &&& r == Some((old(self).key()(t), t))
                &&& final(self).iter.remaining() == old(self).iter.remaining().drop_first()
                &&& decreases_to!(old(self).iter.decrease()->0 => final(self).iter.decrease()->0)
            },
    {
        match self.iter.next() {
            None => None,
            Some(item) => {
                let key = (self.key_selector)(&item);
                Some((key, item))
            },
        }
    }
}

/// Tags the items of an iterator with their keys.
pub trait IntoGrouping: Iterator + Sized {
    fn grouping_by<Ks, K>(self, key_selector: Ks) -> (r: Grouping<Self, Ks, K>) where
        Ks: Fn(&Self::Item) -> K,
        ensures
            r.iter == self,
            r.key_selector == key_selector,
    ;
}

impl<I> IntoGrouping for I where I: Iterator {
    fn grouping_by<Ks, K>(self, key_selector: Ks) -> (r: Grouping<I, Ks, K>) where
        Ks: Fn(&I::Item) -> K,
    {
        Grouping::new(self, key_selector)
    }
}

/// Combines `item` into a fresh clone of `init`.
fn seed_then<R: Clone, T, O: Fn(R, T) -> R>(init: &R, op: &O, item: T) -> (r: R)
    requires
        forall|a: R, t: T| #[trigger] op.requires((a, t)),
    ensures
        exists|c: R| #[trigger] cloned(*init, c) && op.ensures((c, item), r),
{
    let seed = init.clone();
    proof {
        assert(cloned(*init, seed));
    }
    op(seed, item)
}

/// One step of the engine: takes the accumulator of `key` out of the map, if
/// there is one, hands it to `operation` with `item`, and stores the result.
pub(crate) fn absorb<K, T, R, O>(m: &mut HashMap<K, R>, key: K, item: T, operation: &O)
    where K: Eq + Hash, O: Fn(&K, Option<R>, T) -> R,
    requires
        obeys_key_model::<K>(),
        combines(*operation),
    ensures
        final(m)@ == old(m)@.insert(key, final(m)@[key]),
        operation.ensures(
            (&key, if old(m)@.contains_key(key) { Some(old(m)@[key]) } else { None }, item),
            final(m)@[key],
        ),
{
    let prior = m.remove(&key);
    let value = operation(&key, prior, item);
    m.insert(key, value);
}

impl<I, Ks, K> Grouping<I, Ks, K> where I: Iterator, Ks: Fn(&I::Item) -> K, K: Eq + Hash {
    /// Drains the source once, in order, calling `operation` once per item:
    /// with `None` on the first item of its key, else with the key's
    /// accumulator so far. Each key of the source maps to the last result.
    pub fn aggregate<R, O>(self, operation: O) -> (r: HashMap<K, R>)
        where O: Fn(&K, Option<R>, I::Item) -> R,
        requires
            self.well_formed(),
            obeys_key_model::<K>(),
            combines(operation),
        ensures
            aggregates(r@, op_step(operation), self.iter.remaining(), self.key()),
            keys_known(self.key_selector, self.iter.remaining()),
    {
        let mut source = self;
        let ghost all = source.iter.remaining();
        let ghost key = source.key();
        let ghost step = op_step(operation);
        let ghost mut seen: Seq<I::Item> = Seq::empty();
        let mut m: HashMap<K, R> = HashMap::new();
        proof {
            assert(all =~= seen + source.iter.remaining());
            lemma_aggregates_empty(step, key);
        }
        loop
            invariant
                source.well_formed(),
                source.key_selector == self.key_selector,
                key == self.key(),
                obeys_key_model::<K>(),
                combines(operation),
                step == op_step(operation),
                all == seen + source.iter.remaining(),
                aggregates(m@, step, seen, key),
                keys_known(self.key_selector, seen),
            ensures
                all == seen,
                aggregates(m@, step, seen, key),
                keys_known(self.key_selector, seen),
            decreases source.iter.decrease()->0,
        {
            match source.next() {
                None => {
                    proof {
                        assert(all =~= seen);
                    }
                    break;
                },
                Some((k, item)) => {
                    let ghost prior = m@;
                    absorb(&mut m, k, item, &operation);
                    proof {
                        lemma_keys_known_push(self.key_selector, seen, item, k);
                        lemma_aggregates_push(prior, step, seen, key, item, m@[k]);
                        assert(m@ == prior.insert(k, m@[k]));
                        seen = seen.push(item);
                        assert(all =~= seen + source.iter.remaining());
                    }
                },
            }
        }
        m
    }

    /// Folds each key's items into a seed that `initial_value_selector`
    /// selects from the key and the key's first item.
    pub fn fold_with_key<R, Ivs, O>(
        self,
        initial_value_selector: Ivs,
        operation: O,
    ) -> (r: HashMap<K, R>)
        where Ivs: Fn(&K, &I::Item) -> R, O: Fn(&K, R, I::Item) -> R,
        requires
            self.well_formed(),
            obeys_key_model::<K>(),
            forall|k: &K, t: &I::Item| #[trigger] initial_value_selector.requires((k, t)),
            forall|k: &K, a: R, t: I::Item| #[trigger] operation.requires((k, a, t)),
        ensures
            aggregates(
                r@,
                seeded_step(initial_value_selector, operation),
                self.iter.remaining(),
                self.key(),
            ),
            keys_known(self.key_selector, self.iter.remaining()),
    {
        let ghost s = self.iter.remaining();
        let select = &initial_value_selector;
        let op = &operation;
        let combine = move |k: &K, accumulator: Option<R>, item: I::Item| -> (r: R)
            ensures
                seeded_step(*select, *op)(*k, accumulator, item, r),
            {
                match accumulator {
                    Some(a) => op(k, a, item),
                    None => {
                        let seed = select(k, &item);
                        op(k, seed, item)
                    },
                }
            };
        let m = self.aggregate(combine);
        proof {
            let target = seeded_step(initial_value_selector, operation);
            lemma_aggregates_weaken(m@, op_step(combine), target, s, self.key());
        }
        m
    }

    /// Folds each key's items into a seed that `initial_value_provider`
    /// gives; the provider is called once for each new key.
    pub fn fold_with<R, Ivg, O>(
        self,
        initial_value_provider: Ivg,
        operation: O,
    ) -> (r: HashMap<K, R>)
        where Ivg: Fn() -> R, O: Fn(&K, R, I::Item) -> R,
        requires
            self.well_formed(),
            obeys_key_model::<K>(),
            initial_value_provider.requires(()),
            forall|k: &K, a: R, t: I::Item| #[trigger] operation.requires((k, a, t)),
        ensures
            aggregates(
                r@,
                provided_step(initial_value_provider, operation),
                self.iter.remaining(),
                self.key(),
            ),
            keys_known(self.key_selector, self.iter.remaining()),
    {
        let ghost s = self.iter.remaining();
        let provide = &initial_value_provider;
        let op = &operation;
        let combine = move |k: &K, accumulator: Option<R>, item: I::Item| -> (r: R)
            ensures
                provided_step(*provide, *op)(*k, accumulator, item, r),
            {
                match accumulator {
                    Some(a) => op(k, a, item),
                    None => {
                        let seed = provide();
                        op(k, seed, item)
                    },
                }
            };
        let m = self.aggregate(combine);
        proof {
            let target = provided_step(initial_value_provider, operation);
            lemma_aggregates_weaken(m@, op_step(combine), target, s, self.key());
        }
        m
    }

    /// Folds each key's items into its own clone of `initial_value`.
    pub fn fold<R, O>(self, initial_value: R, operation: O) -> (r: HashMap<K, R>)
        where O: Fn(R, I::Item) -> R, R: Clone,
        requires
            self.well_formed(),
            obeys_key_model::<K>(),
            forall|a: R, t: I::Item| #[trigger] operation.requires((a, t)),
        ensures
            aggregates(
                r@,
                fold_step(initial_value, operation),
                self.iter.remaining(),
                self.key(),
            ),
            keys_known(self.key_selector, self.iter.remaining()),
    {
        let ghost s = self.iter.remaining();
        let init = &initial_value;
        let op = &operation;
        let combine = move |k: &K, accumulator: Option<R>, item: I::Item| -> (r: R)
            ensures
                fold_step(*init, *op)(*k, accumulator, item, r),
            {
                match accumulator {
                    Some(a) => op(a, item),
                    None => seed_then(init, op, item),
                }
            };
        let m = self.aggregate(combine);
        proof {
            let target = fold_step(initial_value, operation);
            lemma_aggregates_weaken(m@, op_step(combine), target, s, self.key());
        }
        m
    }

    /// Reduces each key's items: the first item, converted, is the key's
    /// accumulator and never passes through `operation`.
    pub fn reduce_with_key<R, O>(self, operation: O) -> (r: HashMap<K, R>)
        where O: Fn(&K, R, I::Item) -> R, I::Item: Into<R>,
        requires
            self.well_formed(),
            obeys_key_model::<K>(),
            forall|k: &K, a: R, t: I::Item| #[trigger] operation.requires((k, a, t)),
        ensures
            aggregates(r@, first_step(operation), self.iter.remaining(), self.key()),
            keys_known(self.key_selector, self.iter.remaining()),
    {
        let ghost s = self.iter.remaining();
        let op = &operation;
        let combine = move |k: &K, accumulator: Option<R>, item: I::Item| -> (r: R)
            ensures
                first_step(*op)(*k, accumulator, item, r),
            {
                match accumulator {
                    Some(a) => op(k, a, item),
                    None => item.into(),
                }
            };
        let m = self.aggregate(combine);
        proof {
            lemma_aggregates_weaken(m@, op_step(combine), first_step(operation), s, self.key());
        }
        m
    }

    /// `reduce_with_key` with an operation that does not look at the key.
    pub fn reduce<R, O>(self, operation: O) -> (r: HashMap<K, R>)
        where O: Fn(R, I::Item) -> R, I::Item: Into<R>,
        requires
            self.well_formed(),
            obeys_key_model::<K>(),
            forall|a: R, t: I::Item| #[trigger] operation.requires((a, t)),
        ensures
            aggregates(r@, reduce_step(operation), self.iter.remaining(), self.key()),
            keys_known(self.key_selector, self.iter.remaining()),
    {
        let ghost s = self.iter.remaining();
        let op = &operation;
        let keyed = move |_k: &K, accumulator: R, item: I::Item| -> (r: R)
            ensures
                op.ensures((accumulator, item), r),
            {
                op(accumulator, item)
            };
        let m = self.reduce_with_key(keyed);
        proof {
            lemma_aggregates_weaken(m@, first_step(keyed), reduce_step(operation), s, self.key());
        }
        m
    }

    /// The number of items of each key.
    pub fn each_count(self) -> (r: HashMap<K, usize>)
        requires
            self.well_formed(),
            obeys_key_model::<K>(),
            self.iter.remaining().len() <= usize::MAX,
        ensures
            r@.dom() == keys_in(self.iter.remaining(), self.key()),
            forall|k: K| #[trigger]
                r@.contains_key(k) ==> r@[k] == count_of(self.iter.remaining(), self.key(), k),
            keys_known(self.key_selector, self.iter.remaining()),
    {
        let ghost s = self.iter.remaining();
        let one_more = |accumulator: usize, _item: I::Item| -> (r: usize)
            ensures
                accumulator < usize::MAX ==> r == accumulator + 1,
            {
                if accumulator < usize::MAX {
                    accumulator + 1
                } else {
                    accumulator
                }
            };
        let m = self.fold(0, one_more);
        proof {
            assert(step_implies(fold_step(0usize, one_more), count_step::<K, I::Item>()));
            lemma_aggregates_weaken(m@, fold_step(0usize, one_more), count_step(), s, self.key());
            lemma_aggregates_count(m@, s, self.key());
        }
        m
    }
}

} // verus!
