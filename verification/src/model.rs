//! The mathematical model of a map-reduce run: what the map phase emits, how
//! the emitted pairs are grouped by key, and the facts about that grouping
//! which the executable phases rely on.
//!
//! Keys are compared by their views: two keys belong to the same group exactly
//! when their views are equal.

use vstd::prelude::*;

verus! {

/// `==` on `K` answers whether two keys have the same view.
pub open spec fn eq_decides_view<K: View + PartialEq>() -> bool {
    forall|a: K, b: K, r: bool| #[trigger]
        call_ensures(<K as PartialEq>::eq, (&a, &b), r) ==> r == (a@ == b@)
}

/// The concatenation, in order, of the contents of `lists`.
pub open spec fn emitted<T>(lists: Seq<Vec<T>>) -> Seq<T> {
    lists.map_values(|l: Vec<T>| l@).flatten()
}

/// The values that `pairs` associates with `key`, in the order of `pairs`.
pub open spec fn values_for<K: View, V>(pairs: Seq<(K, V)>, key: K::V) -> Seq<V> {
    pairs.filter(|p: (K, V)| p.0@ == key).map_values(|p: (K, V)| p.1)
}

/// Some key in `keys` has the view `key`.
pub open spec fn has_key<K: View>(keys: Seq<K>, key: K::V) -> bool {
    exists|i: int| 0 <= i < keys.len() && (#[trigger] keys[i])@ == key
}

/// The keys of `pairs` without repetition: for each key view the key of the
/// first pair that carries it, in the order of these first occurrences.
pub open spec fn distinct_keys<K: View, V>(pairs: Seq<(K, V)>) -> Seq<K>
    decreases pairs.len(),
{
    if pairs.len() == 0 {
        Seq::empty()
    } else {
        let earlier = distinct_keys(pairs.drop_last());
        if has_key(earlier, pairs.last().0@) {
            earlier
        } else {
            earlier.push(pairs.last().0)
        }
    }
}

/// `groups` is the grouping of `pairs`: one group per distinct key, in order
/// of first occurrence, each holding all the values of its key in the order
/// in which `pairs` lists them.
pub open spec fn is_grouping<K: View, V>(pairs: Seq<(K, V)>, groups: Seq<(K, Vec<V>)>) -> bool {
    &&& groups.len() == distinct_keys(pairs).len()
    &&& forall|i: int|
        0 <= i < groups.len() ==> {
            &&& (#[trigger] groups[i]).0 == distinct_keys(pairs)[i]
            &&& groups[i].1@ == values_for(pairs, groups[i].0@)
        }
}

/// `lists` is an outcome of the map phase on `records`: one list per record,
/// in the order of the records, each one a result of `map_fn` on its record.
pub open spec fn is_mapping<R, K, V, ME, MF: Fn(&R) -> Result<Vec<(K, V)>, ME>>(
    map_fn: MF,
    records: Seq<R>,
    lists: Seq<Vec<(K, V)>>,
) -> bool {
    &&& lists.len() == records.len()
    &&& forall|i: int|
        0 <= i < records.len() ==> call_ensures(
            map_fn,
            (&records[i],),
            Ok::<Vec<(K, V)>, ME>(#[trigger] lists[i]),
        )
}

/// The map phase on `records` can fail with `error`: `map_fn` succeeds on
/// the records before some record and returns `error` on that one.
pub open spec fn map_fails_with<R, K, V, ME, MF: Fn(&R) -> Result<Vec<(K, V)>, ME>>(
    map_fn: MF,
    records: Seq<R>,
    error: ME,
) -> bool {
    exists|i: int, lists: Seq<Vec<(K, V)>>|
        {
            &&& 0 <= i < records.len()
            &&& #[trigger] is_mapping(map_fn, records.take(i), lists)
            &&& call_ensures(map_fn, (&records[i],), Err::<Vec<(K, V)>, ME>(error))
        }
}

/// `outputs` is an outcome of the reduce phase on `groups`: one list per
/// group, in the order of the groups, each one a result of `reduce_fn` on
/// the key and the values of its group.
pub open spec fn is_reduction<K, V, A, RE, RF: Fn(K, Vec<V>) -> Result<Vec<(K, A)>, RE>>(
    reduce_fn: RF,
    groups: Seq<(K, Vec<V>)>,
    outputs: Seq<Vec<(K, A)>>,
) -> bool {
    &&& outputs.len() == groups.len()
    &&& forall|i: int|
        0 <= i < groups.len() ==> call_ensures(
            reduce_fn,
            (groups[i].0, groups[i].1),
            Ok::<Vec<(K, A)>, RE>(#[trigger] outputs[i]),
        )
}

/// The reduce phase on `groups` can fail with `error`: `reduce_fn` succeeds
/// on the groups before some group and returns `error` on that one.
pub open spec fn reduce_fails_with<K, V, A, RE, RF: Fn(K, Vec<V>) -> Result<Vec<(K, A)>, RE>>(
    reduce_fn: RF,
    groups: Seq<(K, Vec<V>)>,
    error: RE,
) -> bool {
    exists|i: int, outputs: Seq<Vec<(K, A)>>|
        {
            &&& 0 <= i < groups.len()
            &&& #[trigger] is_reduction(reduce_fn, groups.take(i), outputs)
            &&& call_ensures(reduce_fn, (groups[i].0, groups[i].1), Err::<Vec<(K, A)>, RE>(error))
        }
}

/// `reduce_fn` may be called on every group that a run on `records` can
/// form.
pub open spec fn reduce_accepts_groups<
    R,
    K: View,
    V,
    A,
    ME,
    RE,
    MF: Fn(&R) -> Result<Vec<(K, V)>, ME>,
    RF: Fn(K, Vec<V>) -> Result<Vec<(K, A)>, RE>,
>(map_fn: MF, reduce_fn: RF, records: Seq<R>) -> bool {
    forall|lists: Seq<Vec<(K, V)>>, groups: Seq<(K, Vec<V>)>, i: int|
        #![trigger is_mapping(map_fn, records, lists), is_grouping(emitted(lists), groups), groups[i]]
        {
            &&& is_mapping(map_fn, records, lists)
            &&& is_grouping(emitted(lists), groups)
            &&& 0 <= i < groups.len()
        } ==> call_requires(reduce_fn, (groups[i].0, groups[i].1))
}

/// `result` is an outcome of a whole run on `records`: the records are
/// mapped, the emitted pairs are grouped, the groups are reduced in their
/// order, and `result` is the concatenation of what the reduce calls return.
pub open spec fn is_evaluation<
    R,
    K: View,
    V,
    A,
    ME,
    RE,
    MF: Fn(&R) -> Result<Vec<(K, V)>, ME>,
    RF: Fn(K, Vec<V>) -> Result<Vec<(K, A)>, RE>,
>(map_fn: MF, reduce_fn: RF, records: Seq<R>, result: Seq<(K, A)>) -> bool {
    exists|lists: Seq<Vec<(K, V)>>, groups: Seq<(K, Vec<V>)>, outputs: Seq<Vec<(K, A)>>|
        #![trigger is_mapping(map_fn, records, lists), is_reduction(reduce_fn, groups, outputs)]
        {
            &&& is_mapping(map_fn, records, lists)
            &&& is_grouping(emitted(lists), groups)
            &&& is_reduction(reduce_fn, groups, outputs)
            &&& result == emitted(outputs)
        }
}

/// A run on `records` can fail with `error` in its reduce phase: the records
/// are mapped, the emitted pairs are grouped, and reducing the groups fails
/// with `error`.
pub open spec fn reduce_phase_fails_with<
    R,
    K: View,
    V,
    A,
    ME,
    RE,
    MF: Fn(&R) -> Result<Vec<(K, V)>, ME>,
    RF: Fn(K, Vec<V>) -> Result<Vec<(K, A)>, RE>,
>(map_fn: MF, reduce_fn: RF, records: Seq<R>, error: RE) -> bool {
    exists|lists: Seq<Vec<(K, V)>>, groups: Seq<(K, Vec<V>)>|
        #![trigger is_mapping(map_fn, records, lists), is_grouping(emitted(lists), groups)]
        {
            &&& is_mapping(map_fn, records, lists)
            &&& is_grouping(emitted(lists), groups)
            &&& reduce_fails_with(reduce_fn, groups, error)
        }
}

/// Appending a pair appends its value to the values of its own key and
/// leaves the values of every other key as they were.
pub proof fn lemma_values_for_push<K: View, V>(pairs: Seq<(K, V)>, pair: (K, V), key: K::V)
    ensures
        values_for(pairs.push(pair), key) == if pair.0@ == key {
            values_for(pairs, key).push(pair.1)
        } else {
            values_for(pairs, key)
        },
{
    let pred = |p: (K, V)| p.0@ == key;
    let snd = |p: (K, V)| p.1;
    pairs.lemma_filter_push(pair, pred);
    if pair.0@ == key {
        assert(pairs.filter(pred).push(pair).map_values(snd) =~= pairs.filter(pred).map_values(
            snd,
        ).push(pair.1));
    }
}

/// Appending a pair appends its key to the distinct keys exactly when no
/// earlier pair carries a key with the same view.
pub proof fn lemma_distinct_keys_push<K: View, V>(pairs: Seq<(K, V)>, pair: (K, V))
    ensures
        distinct_keys(pairs.push(pair)) == if has_key(distinct_keys(pairs), pair.0@) {
            distinct_keys(pairs)
        } else {
            distinct_keys(pairs).push(pair.0)
        },
{
    assert(pairs.push(pair).drop_last() =~= pairs);
}

/// No two of the distinct keys have the same view.
pub proof fn lemma_distinct_keys_differ<K: View, V>(pairs: Seq<(K, V)>)
    ensures
        forall|i: int, j: int|
            0 <= i < j < distinct_keys(pairs).len() ==> (#[trigger] distinct_keys(pairs)[i])@ != (
            #[trigger] distinct_keys(pairs)[j])@,
    decreases pairs.len(),
{
    if pairs.len() > 0 {
        let earlier = distinct_keys(pairs.drop_last());
        let keys = distinct_keys(pairs);
        lemma_distinct_keys_differ(pairs.drop_last());
        assert forall|i: int, j: int| 0 <= i < j < keys.len() implies (#[trigger] keys[i])@ != (
        #[trigger] keys[j])@ by {
            if j < earlier.len() {
                assert(earlier[i]@ != earlier[j]@);
            } else {
                assert(!has_key(earlier, pairs.last().0@));
                assert(earlier[i]@ != pairs.last().0@);
            }
        }
    }
}

/// A key view is among the distinct keys exactly when some pair carries it.
pub proof fn lemma_distinct_keys_cover<K: View, V>(pairs: Seq<(K, V)>, key: K::V)
    ensures
        has_key(distinct_keys(pairs), key) <==> exists|j: int|
            0 <= j < pairs.len() && (#[trigger] pairs[j]).0@ == key,
    decreases pairs.len(),
{
    if pairs.len() > 0 {
        let earlier = pairs.drop_last();
        lemma_distinct_keys_cover(earlier, key);
        lemma_distinct_keys_cover(earlier, pairs.last().0@);
        let keys = distinct_keys(pairs);
        if has_key(distinct_keys(earlier), key) {
            let i = choose|i: int|
                0 <= i < distinct_keys(earlier).len() && (#[trigger] distinct_keys(earlier)[i])@
                    == key;
            assert(keys[i]@ == key);
            let j = choose|j: int| 0 <= j < earlier.len() && (#[trigger] earlier[j]).0@ == key;
            assert(pairs[j].0@ == key);
        } else if pairs.last().0@ == key {
            assert(keys[keys.len() - 1]@ == key);
            assert(pairs[pairs.len() - 1].0@ == key);
        } else {
            if has_key(keys, key) {
                let i = choose|i: int| 0 <= i < keys.len() && (#[trigger] keys[i])@ == key;
                if i < distinct_keys(earlier).len() {
                    assert(distinct_keys(earlier)[i]@ == key);
                }
            }
            if exists|j: int| 0 <= j < pairs.len() && (#[trigger] pairs[j]).0@ == key {
                let j = choose|j: int| 0 <= j < pairs.len() && (#[trigger] pairs[j]).0@ == key;
                assert(earlier[j].0@ == key);
            }
        }
    }
}

/// A key that no pair carries has no values.
pub proof fn lemma_values_for_absent<K: View, V>(pairs: Seq<(K, V)>, key: K::V)
    requires
        !has_key(distinct_keys(pairs), key),
    ensures
        values_for(pairs, key) == Seq::<V>::empty(),
    decreases pairs.len(),
{
    if pairs.len() == 0 {
        assert(pairs.filter(|p: (K, V)| p.0@ == key) =~= Seq::empty()) by {
            reveal(Seq::filter);
        }
        assert(values_for(pairs, key) =~= Seq::<V>::empty());
    } else {
        let earlier = pairs.drop_last();
        lemma_distinct_keys_cover(pairs, key);
        lemma_distinct_keys_cover(earlier, key);
        assert(pairs[pairs.len() - 1].0@ != key);
        if has_key(distinct_keys(earlier), key) {
            let j = choose|j: int| 0 <= j < earlier.len() && (#[trigger] earlier[j]).0@ == key;
            assert(pairs[j].0@ == key);
        }
        lemma_values_for_absent(earlier, key);
        assert(earlier.push(pairs.last()) =~= pairs);
        lemma_values_for_push(earlier, pairs.last(), key);
    }
}

} // verus!
