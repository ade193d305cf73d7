//! The eager form: a materialized collection with a key selector, and the
//! aggregation engine over it.
use crate::model::{
    aggregates, converted, count_of, count_step, first_ref_step, fold_ref_step, key_fn, keys_in,
    keys_known, lemma_aggregates_count, lemma_aggregates_empty, lemma_aggregates_push,
    lemma_aggregates_weaken, lemma_keys_known_push, ref_op_step, seeded_ref_step, selects_keys,
    step_implies,
};
use crate::sequence::absorb;
use std::collections::HashMap;
use std::hash::Hash;
use vstd::prelude::*;
use vstd::std_specs::hash::obeys_key_model;

verus! {

/// A materialized source with a way to derive each element's key.
pub trait Grouping<T, K> {
    /// The elements of the source, in order.
    spec fn items(&self) -> Seq<T>;

    /// The key of each element.
    spec fn key(&self) -> spec_fn(T) -> K;

    /// The key of each element can be derived.
    spec fn well_formed(&self) -> bool;

    fn source(&self) -> (r: &Vec<T>)
        ensures
            r@ == self.items(),
    ;

    fn key_of(&self, element: &T) -> (r: K)
        requires
            self.well_formed(),
        ensures
            r == self.key()(*element),
    ;
}

/// An owned collection grouped by a key selector.
#[verifier::reject_recursive_types(K)]
pub struct GroupingImpl<T, K, Ks> where Ks: Fn(&T) -> K {
    pub raw: Vec<T>,
    pub key_selector: Ks,
}

impl<T, K, Ks> GroupingImpl<T, K, Ks> where Ks: Fn(&T) -> K {
    /// The elements of the collection, in order.
    pub open spec fn elements(&self) -> Seq<T> {
        self.raw@
    }

    /// The key of each element, as a mathematical function.
    pub open spec fn key_map(&self) -> spec_fn(T) -> K {
        key_fn(self.key_selector)
    }

    /// The key selector gives each element one key.
    pub open spec fn selects(&self) -> bool {
        selects_keys(self.key_selector)
    }
}

impl<T, K, Ks> Grouping<T, K> for GroupingImpl<T, K, Ks> where Ks: Fn(&T) -> K {
    open spec fn items(&self) -> Seq<T> {
        self.elements()
    }

    open spec fn key(&self) -> spec_fn(T) -> K {
        self.key_map()
    }

    open spec fn well_formed(&self) -> bool {
        self.selects()
    }

    fn source(&self) -> (r: &Vec<T>) {
        &self.raw
    }

    fn key_of(&self, element: &T) -> (r: K) {
        (self.key_selector)(element)
    }
}

impl<T, K, Ks> GroupingImpl<T, K, Ks> where Ks: Fn(&T) -> K, K: Eq + Hash {
    /// Goes over the elements once, in order, calling `operation` once per
    /// element: with `None` on the first element of its key, else with the
    /// key's accumulator so far. Each key of the source maps to the last result.
    pub fn aggregate<R, O>(&self, operation: O) -> (r: HashMap<K, R>)
        where O: Fn(&K, Option<R>, &T) -> R,
        requires
            self.selects(),
            obeys_key_model::<K>(),
            forall|k: &K, a: Option<R>, t: &T| #[trigger] operation.requires((k, a, t)),
        ensures
            aggregates(r@, ref_op_step(operation), self.elements(), self.key_map()),
            keys_known(self.key_selector, self.elements()),
    {
        let ghost all = self.elements();
        let ghost key = self.key_map();
        let ghost step = ref_op_step(operation);
        let mut m: HashMap<K, R> = HashMap::new();
        let mut i: usize = 0;
        proof {
            assert(all.take(0) =~= Seq::empty());
            lemma_aggregates_empty(step, key);
        }
        while i < self.raw.len()
            invariant
                self.selects(),
                all == self.elements(),
                key == self.key_map(),
                obeys_key_model::<K>(),
                forall|k: &K, a: Option<R>, t: &T| #[trigger] operation.requires((k, a, t)),
                step == ref_op_step(operation),
                0 <= i <= all.len(),
                aggregates(m@, step, all.take(i as int), key),
                keys_known(self.key_selector, all.take(i as int)),
            decreases all.len() - i,
        {
            let item = &self.raw[i];
            let k = (self.key_selector)(item);
            let ghost prior = m@;
            let ghost seen = all.take(i as int);
            absorb(&mut m, k, item, &operation);
            i = i + 1;
            proof {
                assert(all.take(i as int) =~= seen.push(*item));
                lemma_keys_known_push(self.key_selector, seen, *item, k);
                lemma_aggregates_push(prior, step, seen, key, *item, m@[k]);
                assert(m@ == prior.insert(k, m@[k]));
            }
        }
        proof {
            assert(all.take(i as int) =~= all);
        }
        m
    }

    /// Folds each key's elements into a seed that `initial_value_selector`
    /// selects from the key and the key's first element.
    pub fn fold_with_key<R, Ivs, O>(
        &self,
        initial_value_selector: Ivs,
        operation: O,
    ) -> (r: HashMap<K, R>)
        where Ivs: Fn(&K, &T) -> R, O: Fn(&K, R, &T) -> R,
        requires
            self.selects(),
            obeys_key_model::<K>(),
            forall|k: &K, t: &T| #[trigger] initial_value_selector.requires((k, t)),
            forall|k: &K, a: R, t: &T| #[trigger] operation.requires((k, a, t)),
        ensures
            aggregates(
                r@,
                seeded_ref_step(initial_value_selector, operation),
                self.elements(),
                self.key_map(),
            ),
            keys_known(self.key_selector, self.elements()),
    {
        let select = &initial_value_selector;
        let op = &operation;
        let combine = move |k: &K, accumulator: Option<R>, item: &T| -> (r: R)
            ensures
                seeded_ref_step(*select, *op)(*k, accumulator, *item, r),
            {
                match accumulator {
                    Some(a) => op(k, a, item),
                    None => {
                        let seed = select(k, item);
                        op(k, seed, item)
                    },
                }
            };
        let m = self.aggregate(combine);
        proof {
            let target = seeded_ref_step(initial_value_selector, operation);
            let (s, key) = (self.elements(), self.key_map());
            lemma_aggregates_weaken(m@, ref_op_step(combine), target, s, key);
        }
        m
    }

    /// Folds each key's elements into its own clone of `initial_value`.
    pub fn fold<R, O>(&self, initial_value: R, operation: O) -> (r: HashMap<K, R>)
        where O: Fn(R, &T) -> R, R: Clone,
        requires
            self.selects(),
            obeys_key_model::<K>(),
            forall|a: R, t: &T| #[trigger] operation.requires((a, t)),
        ensures
            aggregates(
                r@,
                fold_ref_step(initial_value, operation),
                self.elements(),
                self.key_map(),
            ),
            keys_known(self.key_selector, self.elements()),
    {
        let init = &initial_value;
        let op = &operation;
        let combine = move |k: &K, accumulator: Option<R>, item: &T| -> (r: R)
            ensures
                fold_ref_step(*init, *op)(*k, accumulator, *item, r),
            {
                match accumulator {
                    Some(a) => op(a, item),
                    None => seed_then(init, op, item),
                }
            };
        let m = self.aggregate(combine);
        proof {
            let target = fold_ref_step(initial_value, operation);
            let (s, key) = (self.elements(), self.key_map());
            lemma_aggregates_weaken(m@, ref_op_step(combine), target, s, key);
        }
        m
    }

    /// Reduces each key's elements: a clone of the first element, converted,
    /// is the key's accumulator and never passes through `operation`.
    pub fn reduce_with_key<R, O>(&self, operation: O) -> (r: HashMap<K, R>)
        where O: Fn(&K, R, &T) -> R, T: Clone + Into<R>,
        requires
            self.selects(),
            obeys_key_model::<K>(),
            forall|k: &K, a: R, t: &T| #[trigger] operation.requires((k, a, t)),
        ensures
            aggregates(r@, first_ref_step(operation), self.elements(), self.key_map()),
            keys_known(self.key_selector, self.elements()),
    {
        let op = &operation;
        let combine = move |k: &K, accumulator: Option<R>, item: &T| -> (r: R)
            ensures
                first_ref_step(*op)(*k, accumulator, *item, r),
            {
                match accumulator {
                    Some(a) => op(k, a, item),
                    None => convert_clone(item),
                }
            };
        let m = self.aggregate(combine);
        proof {
            let target = first_ref_step(operation);
            let (s, key) = (self.elements(), self.key_map());
            lemma_aggregates_weaken(m@, ref_op_step(combine), target, s, key);
        }
        m
    }

    /// The number of elements of each key.
    pub fn each_count(&self) -> (r: HashMap<K, usize>)
        requires
            self.selects(),
            obeys_key_model::<K>(),
        ensures
            r@.dom() == keys_in(self.elements(), self.key_map()),
            forall|k: K| #[trigger]
                r@.contains_key(k) ==> r@[k] == count_of(self.elements(), self.key_map(), k),
            keys_known(self.key_selector, self.elements()),
    {
        let one_more = |accumulator: usize, _item: &T| -> (r: usize)
            ensures
                accumulator < usize::MAX ==> r == accumulator + 1,
            {
                if accumulator < usize::MAX {
                    accumulator + 1
                } else {
                    accumulator
                }
            };
        let n: usize = self.raw.len();
        let m = self.fold(0, one_more);
        proof {
            let counting = fold_ref_step(0usize, one_more);
            assert(self.elements().len() == n);
            assert(step_implies(counting, count_step::<K, T>()));
            lemma_aggregates_weaken(m@, counting, count_step(), self.elements(), self.key_map());
            lemma_aggregates_count(m@, self.elements(), self.key_map());
        }
        m
    }
}

/// Turns an owned collection into a grouping by a key selector.
pub trait IntoGrouping<T>: View<V = Seq<T>> + Sized {
    fn grouping_by<K, Ks>(self, key_selector: Ks) -> (r: GroupingImpl<T, K, Ks>) where
        Ks: Fn(&T) -> K,
        ensures
            r.raw@ == self@,
            r.key_selector == key_selector,
    ;
}

impl<T> IntoGrouping<T> for Vec<T> {
    fn grouping_by<K, Ks>(self, key_selector: Ks) -> (r: GroupingImpl<T, K, Ks>) where
        Ks: Fn(&T) -> K,
    {
        GroupingImpl { raw: self, key_selector }
    }
}

/// Combines `item` into a fresh clone of `init`.
fn seed_then<R: Clone, T, O: Fn(R, &T) -> R>(init: &R, op: &O, item: &T) -> (r: R)
    requires
        forall|a: R, t: &T| #[trigger] op.requires((a, t)),
    ensures
        exists|c: R| #[trigger] cloned(*init, c) && op.ensures((c, item), r),
{
    let seed = init.clone();
    proof {
        assert(cloned(*init, seed));
    }
    op(seed, item)
}

/// Converts a clone of `item`.
fn convert_clone<T: Clone + Into<R>, R>(item: &T) -> (r: R)
    ensures
        exists|c: T| #[trigger] cloned(*item, c) && converted(c, r),
{
    let c = item.clone();
    proof {
        assert(cloned(*item, c));
    }
    c.into()
}

} // verus!
