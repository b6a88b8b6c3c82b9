//! The three phases of a map-reduce run as executable functions.

use vstd::prelude::*;
use crate::model::{eq_decides_view, is_grouping, emitted, values_for, distinct_keys, has_key};
use crate::model::{is_mapping, map_fails_with, is_reduction, reduce_fails_with};
use crate::model::{lemma_values_for_push, lemma_distinct_keys_push, lemma_distinct_keys_differ, lemma_values_for_absent};

verus! {

/// The map phase: applies `map_fn` to each record in order and collects what
/// it emits, one list per record. The first failure of `map_fn` ends the
/// phase with that error; the records after it are not mapped.
pub fn map_records<R, K, V, ME, MF: Fn(&R) -> Result<Vec<(K, V)>, ME>>(
    records: &Vec<R>,
    map_fn: &MF,
) -> (result: Result<Vec<Vec<(K, V)>>, ME>)
    requires
        forall|i: int| 0 <= i < records.len() ==> call_requires(*map_fn, (&#[trigger] records[i],)),
    ensures
        match result {
            Ok(lists) => is_mapping(*map_fn, records@, lists@),
            Err(error) => map_fails_with(*map_fn, records@, error),
        },
{
    let mut lists: Vec<Vec<(K, V)>> = Vec::new();
    let mut i: usize = 0;
    while i < records.len()
        invariant
            i <= records.len(),
            forall|j: int|
                0 <= j < records.len() ==> call_requires(*map_fn, (&#[trigger] records[j],)),
            is_mapping(*map_fn, records@.take(i as int), lists@),
        decreases records.len() - i,
    {
        match map_fn(&records[i]) {
            Ok(list) => {
                lists.push(list);
            },
            Err(error) => {
                return Err(error);
            },
        }
        i += 1;
    }
    proof {
        assert(records@.take(records.len() as int) =~= records@);
    }
    Ok(lists)
}

/// The reduce phase: calls `reduce_fn` once for each group, in the order of
/// the groups, and concatenates what the calls return. The first failure of
/// `reduce_fn` ends the phase with that error; the groups after it are not
/// reduced.
pub fn reduce_groups<K, V, A, RE, RF: Fn(K, Vec<V>) -> Result<Vec<(K, A)>, RE>>(
    groups: Vec<(K, Vec<V>)>,
    reduce_fn: &RF,
) -> (result: Result<Vec<(K, A)>, RE>)
    requires
        forall|i: int|
            0 <= i < groups.len() ==> call_requires(
                *reduce_fn,
                ((#[trigger] groups[i]).0, groups[i].1),
            ),
    ensures
        match result {
            Ok(reduced) => exists|outputs: Seq<Vec<(K, A)>>|
                #[trigger] is_reduction(*reduce_fn, groups@, outputs) && reduced@ == emitted(
                    outputs,
                ),
            Err(error) => reduce_fails_with(*reduce_fn, groups@, error),
        },
{
    let ghost all = groups@;
    let ghost mut outputs: Seq<Vec<(K, A)>> = Seq::empty();
    let mut reduced: Vec<(K, A)> = Vec::new();
    proof {
        assert(outputs.map_values(|l: Vec<(K, A)>| l@) =~= Seq::<Seq<(K, A)>>::empty());
    }
    for group in iter: groups
        invariant
            iter.seq() == all,
            forall|i: int|
                0 <= i < all.len() ==> call_requires(*reduce_fn, ((#[trigger] all[i]).0, all[i].1)),
            is_reduction(*reduce_fn, all.take(iter.index() as int), outputs),
            reduced@ == emitted(outputs),
    {
        let (key, values) = group;
        match reduce_fn(key, values) {
            Ok(mut output) => {
                proof {
                    let views = |l: Vec<(K, A)>| l@;
                    assert(outputs.push(output).map_values(views) =~= outputs.map_values(
                        views,
                    ).push(output@));
                    outputs.map_values(views).lemma_flatten_push(output@);
                    outputs = outputs.push(output);
                }
                reduced.append(&mut output);
            },
            Err(error) => {
                return Err(error);
            },
        }
    }
    proof {
        assert(all.take(all.len() as int) =~= all);
    }
    Ok(reduced)
}

/// Finds the group whose key has the same view as `key`.
pub fn find_group<K: View + PartialEq, V>(groups: &Vec<(K, Vec<V>)>, key: &K) -> (found: Option<usize>)
    requires
        eq_decides_view::<K>(),
    ensures
        match found {
            Some(i) => i < groups.len() && groups[i as int].0@ == key@ && forall|j: int|
                0 <= j < i ==> (#[trigger] groups[j]).0@ != key@,
            None => forall|j: int| 0 <= j < groups.len() ==> (#[trigger] groups[j]).0@ != key@,
        },
{
    let mut i: usize = 0;
    while i < groups.len()
        invariant
            i <= groups.len(),
            eq_decides_view::<K>(),
            forall|j: int| 0 <= j < i ==> (#[trigger] groups[j]).0@ != key@,
        decreases groups.len() - i,
    {
        if groups[i].0.eq(key) {
            return Some(i);
        }
        i += 1;
    }
    None
}

/// The shuffle phase: folds the emitted pairs into groups, one per distinct
/// key. The first pair with a given key opens the group of that key; each
/// later one appends its value to it.
pub fn group_pairs<K: View + PartialEq, V>(lists: Vec<Vec<(K, V)>>) -> (groups: Vec<(K, Vec<V>)>)
    requires
        eq_decides_view::<K>(),
    ensures
        is_grouping(emitted(lists@), groups@),
{
    let ghost all = lists@;
    let ghost mut seen: Seq<(K, V)> = Seq::empty();
    let mut groups: Vec<(K, Vec<V>)> = Vec::new();
    proof {
        assert(all.take(0).map_values(|l: Vec<(K, V)>| l@) =~= Seq::<Seq<(K, V)>>::empty());
    }
    for list in outer: lists
        invariant
            eq_decides_view::<K>(),
            outer.seq() == all,
            seen == emitted(all.take(outer.index() as int)),
            is_grouping(seen, groups@),
    {
        let ghost before = seen;
        let ghost current = list@;
        for pair in inner: list
            invariant
                eq_decides_view::<K>(),
                inner.seq() == current,
                seen == before + current.take(inner.index() as int),
                is_grouping(seen, groups@),
        {
            let ghost old_groups = groups@;
            let (key, val) = pair;
            proof {
                lemma_values_for_push(seen, pair, key@);
                lemma_distinct_keys_push(seen, pair);
                lemma_distinct_keys_differ(seen);
            }
            match find_group(&groups, &key) {
                Some(i) => {
                    groups[i].1.push(val);
                    proof {
                        assert(old_groups[i as int].0@ == key@);
                        assert(has_key(distinct_keys(seen), key@));
                        assert forall|j: int| 0 <= j < groups@.len() implies {
                            &&& (#[trigger] groups@[j]).0 == distinct_keys(seen.push(pair))[j]
                            &&& groups@[j].1@ == values_for(seen.push(pair), groups@[j].0@)
                        } by {
                            assert(old_groups[j].0 == distinct_keys(seen)[j]);
                            lemma_values_for_push(seen, pair, old_groups[j].0@);
                        }
                    }
                },
                None => {
                    let mut vals: Vec<V> = Vec::new();
                    vals.push(val);
                    groups.push((key, vals));
                    proof {
                        assert(!has_key(distinct_keys(seen), key@)) by {
                            if has_key(distinct_keys(seen), key@) {
                                let j = choose|j: int|
                                    0 <= j < distinct_keys(seen).len() && (
                                    #[trigger] distinct_keys(seen)[j])@ == key@;
                                assert(old_groups[j].0@ == key@);
                            }
                        }
                        lemma_values_for_absent(seen, key@);
                        assert forall|j: int| 0 <= j < groups@.len() implies {
                            &&& (#[trigger] groups@[j]).0 == distinct_keys(seen.push(pair))[j]
                            &&& groups@[j].1@ == values_for(seen.push(pair), groups@[j].0@)
                        } by {
                            if j < old_groups.len() {
                                assert(old_groups[j].0 == distinct_keys(seen)[j]);
                                lemma_values_for_push(seen, pair, old_groups[j].0@);
                            } else {
                                assert(vals@ =~= Seq::<V>::empty().push(val));
                            }
                        }
                    }
                },
            }
            proof {
                assert(current.take(inner.index() as int + 1) =~= current.take(
                    inner.index() as int,
                ).push(pair));
                seen = seen.push(pair);
                assert(seen =~= before + current.take(inner.index() as int + 1));
            }
        }
        proof {
            let views = |l: Vec<(K, V)>| l@;
            let done = all.take(outer.index() as int);
            assert(current.take(current.len() as int) =~= current);
            assert(all.take(outer.index() as int + 1).map_values(views) =~= done.map_values(
                views,
            ).push(current));
            done.map_values(views).lemma_flatten_push(current);
        }
    }
    proof {
        assert(all.take(all.len() as int) =~= all);
    }
    groups
}

} // verus!
