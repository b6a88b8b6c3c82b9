//! Laws of the evaluator, stated over the model and proved once for all
//! inputs.

use vstd::prelude::*;
use crate::model::{emitted, values_for, has_key, distinct_keys, is_grouping};
use crate::model::{is_mapping, map_fails_with, is_reduction, reduce_fails_with};
use crate::model::{is_evaluation, reduce_phase_fails_with};
use crate::model::{lemma_values_for_push, lemma_distinct_keys_differ, lemma_distinct_keys_cover};
use crate::evaluator::{EvaluateError, is_outcome};

verus! {

/// Two sequences of pairs agree: they have the same length, and at each
/// position the keys have the same view and the second components are equal.
pub open spec fn same_pairs<K: View, T>(a: Seq<(K, T)>, b: Seq<(K, T)>) -> bool {
    &&& a.len() == b.len()
    &&& forall|i: int| 0 <= i < a.len() ==> (#[trigger] a[i]).0@ == b[i].0@ && a[i].1 == b[i].1
}

/// How many of `pairs` carry both the key view `key` and the value `value`.
pub open spec fn occurrences<K: View, V>(pairs: Seq<(K, V)>, key: K::V, value: V) -> nat {
    pairs.filter(|p: (K, V)| p.0@ == key && p.1 == value).len()
}

/// `map_fn` computes `f`: whatever it returns on a record agrees with what
/// `f` gives for that record.
pub open spec fn map_computes<R, K: View, V, ME, MF: Fn(&R) -> Result<Vec<(K, V)>, ME>>(
    map_fn: MF,
    f: spec_fn(R) -> Seq<(K, V)>,
) -> bool {
    forall|r: R, list: Vec<(K, V)>| #[trigger]
        call_ensures(map_fn, (&r,), Ok::<Vec<(K, V)>, ME>(list)) ==> same_pairs(list@, f(r))
}

/// Appending one more list to `lists` appends its contents to what `lists`
/// holds.
pub proof fn lemma_emitted_push<T>(lists: Seq<Vec<T>>, list: Vec<T>)
    ensures
        emitted(lists.push(list)) == emitted(lists) + list@,
{
    let views = |l: Vec<T>| l@;
    assert(lists.push(list).map_values(views) =~= lists.map_values(views).push(list@));
    lists.map_values(views).lemma_flatten_push(list@);
}

/// A run on no records gives no pairs, whatever the two functions are, and
/// cannot fail.
pub proof fn lemma_empty_run<
    R,
    K: View,
    V,
    A,
    ME,
    RE,
    MF: Fn(&R) -> Result<Vec<(K, V)>, ME>,
    RF: Fn(K, Vec<V>) -> Result<Vec<(K, A)>, RE>,
>(map_fn: MF, reduce_fn: RF, records: Seq<R>)
    requires
        records.len() == 0,
    ensures
        forall|result: Seq<(K, A)>| #[trigger]
            is_evaluation(map_fn, reduce_fn, records, result) ==> result == Seq::<(K, A)>::empty(),
        forall|error: ME| !#[trigger] map_fails_with(map_fn, records, error),
        forall|error: RE| !#[trigger] reduce_phase_fails_with(map_fn, reduce_fn, records, error),
{
    assert forall|lists: Seq<Vec<(K, V)>>, groups: Seq<(K, Vec<V>)>|
        is_mapping(map_fn, records, lists) && #[trigger] is_grouping(
            emitted(lists),
            groups,
        ) implies groups.len() == 0 by {
        assert(lists.map_values(|l: Vec<(K, V)>| l@) =~= Seq::<Seq<(K, V)>>::empty());
        assert(emitted(lists) =~= Seq::<(K, V)>::empty());
    }
    assert forall|result: Seq<(K, A)>| #[trigger]
        is_evaluation(map_fn, reduce_fn, records, result) implies result == Seq::<
        (K, A),
    >::empty() by {
        let (lists, groups, outputs) = choose|
            lists: Seq<Vec<(K, V)>>,
            groups: Seq<(K, Vec<V>)>,
            outputs: Seq<Vec<(K, A)>>,
        |
            #![trigger is_mapping(map_fn, records, lists), is_reduction(reduce_fn, groups, outputs)]
            {
                &&& is_mapping(map_fn, records, lists)
                &&& is_grouping(emitted(lists), groups)
                &&& is_reduction(reduce_fn, groups, outputs)
                &&& result == emitted(outputs)
            };
        assert(outputs.map_values(|l: Vec<(K, A)>| l@) =~= Seq::<Seq<(K, A)>>::empty());
        assert(result =~= Seq::<(K, A)>::empty());
    }
}

/// Grouping keeps every value: a value occurs in the values collected for a
/// key exactly as often as pairs with that key and that value were emitted.
pub proof fn lemma_values_for_counts<K: View, V>(pairs: Seq<(K, V)>, key: K::V, value: V)
    ensures
        values_for(pairs, key).to_multiset().count(value) == occurrences(pairs, key, value),
    decreases pairs.len(),
{
    broadcast use vstd::multiset::group_multiset_axioms;

    let both = |p: (K, V)| p.0@ == key && p.1 == value;
    if pairs.len() == 0 {
        assert(pairs.filter(both) =~= Seq::empty()) by {
            reveal(Seq::filter);
        }
        assert(values_for(pairs, key) =~= Seq::<V>::empty()) by {
            reveal(Seq::filter);
        }
        Seq::<V>::empty().to_multiset_ensures();
    } else {
        let earlier = pairs.drop_last();
        let last = pairs.last();
        assert(earlier.push(last) =~= pairs);
        lemma_values_for_counts(earlier, key, value);
        lemma_values_for_push(earlier, last, key);
        earlier.lemma_filter_push(last, both);
        values_for(earlier, key).to_multiset_ensures();
    }
}

/// The groups hold what was emitted, key by key: the values of each group
/// are, as a multiset, the values of the emitted pairs with the key of that
/// group.
pub proof fn lemma_groups_keep_values<K: View, V>(
    pairs: Seq<(K, V)>,
    groups: Seq<(K, Vec<V>)>,
    i: int,
    value: V,
)
    requires
        is_grouping(pairs, groups),
        0 <= i < groups.len(),
    ensures
        groups[i].1@.to_multiset().count(value) == occurrences(pairs, groups[i].0@, value),
{
    lemma_values_for_counts(pairs, groups[i].0@, value);
}

/// The groups partition the emitted keys: no two groups have keys with the
/// same view, every emitted pair has the group of its key, and the key of
/// every group was emitted.
pub proof fn lemma_groups_partition_keys<K: View, V>(pairs: Seq<(K, V)>, groups: Seq<(K, Vec<V>)>)
    requires
        is_grouping(pairs, groups),
    ensures
        forall|i: int, j: int|
            0 <= i < j < groups.len() ==> (#[trigger] groups[i]).0@ != (#[trigger] groups[j]).0@,
        forall|j: int|
            0 <= j < pairs.len() ==> exists|i: int|
                0 <= i < groups.len() && (#[trigger] groups[i]).0@ == (#[trigger] pairs[j]).0@,
        forall|i: int|
            0 <= i < groups.len() ==> exists|j: int|
                0 <= j < pairs.len() && (#[trigger] pairs[j]).0@ == (#[trigger] groups[i]).0@,
{
    let keys = distinct_keys(pairs);
    lemma_distinct_keys_differ(pairs);
    assert forall|i: int, j: int| 0 <= i < j < groups.len() implies (#[trigger] groups[i]).0@ != (
    #[trigger] groups[j]).0@ by {
        assert(keys[i]@ != keys[j]@);
    }
    assert forall|j: int| 0 <= j < pairs.len() implies exists|i: int|
        0 <= i < groups.len() && (#[trigger] groups[i]).0@ == (#[trigger] pairs[j]).0@ by {
        lemma_distinct_keys_cover(pairs, pairs[j].0@);
        let i = choose|i: int| 0 <= i < keys.len() && (#[trigger] keys[i])@ == pairs[j].0@;
        assert(groups[i].0@ == pairs[j].0@);
    }
    assert forall|i: int| 0 <= i < groups.len() implies exists|j: int|
        0 <= j < pairs.len() && (#[trigger] pairs[j]).0@ == (#[trigger] groups[i]).0@ by {
        lemma_distinct_keys_cover(pairs, groups[i].0@);
        assert(keys[i]@ == groups[i].0@);
    }
}

/// `reduce_fn` keeps its key: every pair it returns carries a key with the
/// view of the key it was called with.
pub open spec fn reduce_keeps_key<K: View, V, A, RE, RF: Fn(K, Vec<V>) -> Result<Vec<(K, A)>, RE>>(
    reduce_fn: RF,
) -> bool {
    forall|key: K, values: Vec<V>, output: Vec<(K, A)>, j: int|
        #![trigger call_ensures(reduce_fn, (key, values), Ok::<Vec<(K, A)>, RE>(output)), output@[j]]
        call_ensures(reduce_fn, (key, values), Ok::<Vec<(K, A)>, RE>(output)) && 0 <= j
            < output@.len() ==> output@[j].0@ == key@
}

/// Every item that `lists` hold together stands in one of the lists.
pub proof fn lemma_emitted_origin<T>(lists: Seq<Vec<T>>, j: int)
    requires
        0 <= j < emitted(lists).len(),
    ensures
        exists|i: int, k: int|
            0 <= i < lists.len() && 0 <= k < lists[i]@.len() && emitted(lists)[j]
                == #[trigger] lists[i]@[k],
    decreases lists.len(),
{
    if lists.len() == 0 {
        assert(lists.map_values(|l: Vec<T>| l@) =~= Seq::<Seq<T>>::empty());
    } else {
        let n = lists.len() - 1;
        let before = lists.drop_last();
        assert(before.push(lists[n]) =~= lists);
        lemma_emitted_push(before, lists[n]);
        if j < emitted(before).len() {
            lemma_emitted_origin(before, j);
            let (i, k) = choose|i: int, k: int|
                0 <= i < before.len() && 0 <= k < before[i]@.len() && emitted(before)[j]
                    == #[trigger] before[i]@[k];
            assert(emitted(lists)[j] == lists[i]@[k]);
        } else {
            assert(emitted(lists)[j] == lists[n]@[j - emitted(before).len()]);
        }
    }
}

/// Where `reduce_fn` keeps its key, every key in the result of a run was
/// emitted by the map phase of that run.
pub proof fn lemma_result_keys_were_emitted<
    K: View,
    V,
    A,
    RE,
    RF: Fn(K, Vec<V>) -> Result<Vec<(K, A)>, RE>,
>(
    reduce_fn: RF,
    pairs: Seq<(K, V)>,
    groups: Seq<(K, Vec<V>)>,
    outputs: Seq<Vec<(K, A)>>,
    j: int,
)
    requires
        reduce_keeps_key(reduce_fn),
        is_grouping(pairs, groups),
        is_reduction(reduce_fn, groups, outputs),
        0 <= j < emitted(outputs).len(),
    ensures
        exists|m: int| 0 <= m < pairs.len() && (#[trigger] pairs[m]).0@ == emitted(outputs)[j].0@,
{
    lemma_emitted_origin(outputs, j);
    let (i, k) = choose|i: int, k: int|
        0 <= i < outputs.len() && 0 <= k < outputs[i]@.len() && emitted(outputs)[j]
            == #[trigger] outputs[i]@[k];
    assert(call_ensures(reduce_fn, (groups[i].0, groups[i].1), Ok::<Vec<(K, A)>, RE>(outputs[i])));
    assert(outputs[i]@[k].0@ == groups[i].0@);
    lemma_groups_partition_keys(pairs, groups);
    let m = choose|m: int| 0 <= m < pairs.len() && (#[trigger] pairs[m]).0@ == groups[i].0@;
    assert(pairs[m].0@ == emitted(outputs)[j].0@);
}

/// The map phase keeps the order of the records: where `map_fn` computes
/// `f`, the pairs that the phase emits are those of `f` on the first record,
/// then those of `f` on the second, and so on.
pub proof fn lemma_map_phase_keeps_order<R, K: View, V, ME, MF: Fn(&R) -> Result<Vec<(K, V)>, ME>>(
    map_fn: MF,
    f: spec_fn(R) -> Seq<(K, V)>,
    records: Seq<R>,
    lists: Seq<Vec<(K, V)>>,
)
    requires
        map_computes(map_fn, f),
        is_mapping(map_fn, records, lists),
    ensures
        same_pairs(emitted(lists), records.map_values(f).flatten()),
    decreases records.len(),
{
    if records.len() == 0 {
        assert(lists.map_values(|l: Vec<(K, V)>| l@) =~= Seq::<Seq<(K, V)>>::empty());
        assert(records.map_values(f) =~= Seq::<Seq<(K, V)>>::empty());
    } else {
        let n = records.len() - 1;
        assert(is_mapping(map_fn, records.drop_last(), lists.drop_last())) by {
            assert forall|i: int| 0 <= i < n implies call_ensures(
                map_fn,
                (&records.drop_last()[i],),
                Ok::<Vec<(K, V)>, ME>(#[trigger] lists.drop_last()[i]),
            ) by {
                assert(call_ensures(map_fn, (&records[i],), Ok::<Vec<(K, V)>, ME>(lists[i])));
            }
        }
        lemma_map_phase_keeps_order(map_fn, f, records.drop_last(), lists.drop_last());
        assert(call_ensures(map_fn, (&records[n],), Ok::<Vec<(K, V)>, ME>(lists[n])));
        assert(same_pairs(lists[n]@, f(records[n])));
        assert(lists.drop_last().push(lists[n]) =~= lists);
        lemma_emitted_push(lists.drop_last(), lists[n]);
        assert(records.map_values(f) =~= records.drop_last().map_values(f).push(f(records[n])));
        records.drop_last().map_values(f).lemma_flatten_push(f(records[n]));
    }
}

/// Two results of a call agree: both are lists that agree, or both are the
/// same error.
pub open spec fn same_result<K: View, T, E>(
    a: Result<Vec<(K, T)>, E>,
    b: Result<Vec<(K, T)>, E>,
) -> bool {
    match (a, b) {
        (Ok(x), Ok(y)) => same_pairs(x@, y@),
        (Err(e), Err(f)) => e == f,
        _ => false,
    }
}

/// `map_fn` is pure: any two results it can give for one record agree.
pub open spec fn map_is_pure<R, K: View, V, ME, MF: Fn(&R) -> Result<Vec<(K, V)>, ME>>(
    map_fn: MF,
) -> bool {
    forall|r: R, a: Result<Vec<(K, V)>, ME>, b: Result<Vec<(K, V)>, ME>|
        #![trigger call_ensures(map_fn, (&r,), a), call_ensures(map_fn, (&r,), b)]
        call_ensures(map_fn, (&r,), a) && call_ensures(map_fn, (&r,), b) ==> same_result(a, b)
}

/// `reduce_fn` is pure: any two results it can give agree, where the keys
/// it is given have the same view and the values are the same sequence.
pub open spec fn reduce_is_pure<K: View, V, A, RE, RF: Fn(K, Vec<V>) -> Result<Vec<(K, A)>, RE>>(
    reduce_fn: RF,
) -> bool {
    forall|
        k1: K,
        v1: Vec<V>,
        k2: K,
        v2: Vec<V>,
        a: Result<Vec<(K, A)>, RE>,
        b: Result<Vec<(K, A)>, RE>,
    |
        #![trigger call_ensures(reduce_fn, (k1, v1), a), call_ensures(reduce_fn, (k2, v2), b)]
        {
            &&& k1@ == k2@
            &&& v1@ == v2@
            &&& call_ensures(reduce_fn, (k1, v1), a)
            &&& call_ensures(reduce_fn, (k2, v2), b)
        } ==> same_result(a, b)
}

/// Two sequences of groups agree: they have the same length, and at each
/// position the keys have the same view and the values are the same
/// sequence.
pub open spec fn same_groups<K: View, V>(a: Seq<(K, Vec<V>)>, b: Seq<(K, Vec<V>)>) -> bool {
    &&& a.len() == b.len()
    &&& forall|i: int| 0 <= i < a.len() ==> (#[trigger] a[i]).0@ == b[i].0@ && a[i].1@ == b[i].1@
}

/// Lists that agree one by one hold pairs that agree.
pub proof fn lemma_emitted_agree<K: View, T>(a: Seq<Vec<(K, T)>>, b: Seq<Vec<(K, T)>>)
    requires
        a.len() == b.len(),
        forall|i: int| 0 <= i < a.len() ==> same_pairs((#[trigger] a[i])@, b[i]@),
    ensures
        same_pairs(emitted(a), emitted(b)),
    decreases a.len(),
{
    if a.len() == 0 {
        assert(a.map_values(|l: Vec<(K, T)>| l@) =~= Seq::<Seq<(K, T)>>::empty());
        assert(b.map_values(|l: Vec<(K, T)>| l@) =~= Seq::<Seq<(K, T)>>::empty());
    } else {
        let n = a.len() - 1;
        assert forall|i: int| 0 <= i < n implies same_pairs(
            (#[trigger] a.drop_last()[i])@,
            b.drop_last()[i]@,
        ) by {
            assert(same_pairs(a[i]@, b[i]@));
        }
        lemma_emitted_agree(a.drop_last(), b.drop_last());
        assert(same_pairs(a[n]@, b[n]@));
        assert(a.drop_last().push(a[n]) =~= a);
        assert(b.drop_last().push(b[n]) =~= b);
        lemma_emitted_push(a.drop_last(), a[n]);
        lemma_emitted_push(b.drop_last(), b[n]);
    }
}

/// Pairs that agree have distinct keys that agree, position by position, and
/// the same values for every key.
pub proof fn lemma_grouping_respects_views<K: View, V>(p: Seq<(K, V)>, q: Seq<(K, V)>)
    requires
        same_pairs(p, q),
    ensures
        distinct_keys(p).len() == distinct_keys(q).len(),
        forall|i: int|
            0 <= i < distinct_keys(p).len() ==> (#[trigger] distinct_keys(p)[i])@ == distinct_keys(
                q,
            )[i]@,
        forall|key: K::V| #[trigger] values_for(p, key) == values_for(q, key),
    decreases p.len(),
{
    if p.len() == 0 {
        assert forall|key: K::V| #[trigger] values_for(p, key) == values_for(q, key) by {
            reveal(Seq::filter);
            assert(values_for(p, key) =~= values_for(q, key));
        }
    } else {
        let p_init = p.drop_last();
        let q_init = q.drop_last();
        assert(same_pairs(p_init, q_init)) by {
            assert forall|i: int| 0 <= i < p_init.len() implies (#[trigger] p_init[i]).0@ == q_init[i].0@
                && p_init[i].1 == q_init[i].1 by {
                assert(p[i].0@ == q[i].0@);
            }
        }
        lemma_grouping_respects_views(p_init, q_init);
        assert(p[p.len() - 1].0@ == q[p.len() - 1].0@);
        let key = p.last().0@;
        assert(has_key(distinct_keys(p_init), key) <==> has_key(distinct_keys(q_init), key)) by {
            if has_key(distinct_keys(p_init), key) {
                let i = choose|i: int|
                    0 <= i < distinct_keys(p_init).len() && (#[trigger] distinct_keys(p_init)[i])@ == key;
                assert(distinct_keys(q_init)[i]@ == key);
            }
            if has_key(distinct_keys(q_init), key) {
                let i = choose|i: int|
                    0 <= i < distinct_keys(q_init).len() && (#[trigger] distinct_keys(q_init)[i])@ == key;
                assert(distinct_keys(p_init)[i]@ == key);
            }
        }
        assert(p_init.push(p.last()) =~= p);
        assert(q_init.push(q.last()) =~= q);
        assert forall|k: K::V| #[trigger] values_for(p, k) == values_for(q, k) by {
            lemma_values_for_push(p_init, p.last(), k);
            lemma_values_for_push(q_init, q.last(), k);
            assert(values_for(p_init, k) == values_for(q_init, k));
        }
    }
}

/// Groupings of pairs that agree are groups that agree.
pub proof fn lemma_groupings_agree<K: View, V>(
    p: Seq<(K, V)>,
    q: Seq<(K, V)>,
    g: Seq<(K, Vec<V>)>,
    h: Seq<(K, Vec<V>)>,
)
    requires
        same_pairs(p, q),
        is_grouping(p, g),
        is_grouping(q, h),
    ensures
        same_groups(g, h),
{
    lemma_grouping_respects_views(p, q);
    assert forall|i: int| 0 <= i < g.len() implies (#[trigger] g[i]).0@ == h[i].0@ && g[i].1@
        == h[i].1@ by {
        assert(h[i].0 == distinct_keys(q)[i]);
        assert(distinct_keys(p)[i]@ == distinct_keys(q)[i]@);
        assert(values_for(p, g[i].0@) == values_for(q, g[i].0@));
    }
}

/// With a pure `map_fn`, two map phases on the same records emit pairs that
/// agree.
pub proof fn lemma_mappings_agree<R, K: View, V, ME, MF: Fn(&R) -> Result<Vec<(K, V)>, ME>>(
    map_fn: MF,
    records: Seq<R>,
    a: Seq<Vec<(K, V)>>,
    b: Seq<Vec<(K, V)>>,
)
    requires
        map_is_pure(map_fn),
        is_mapping(map_fn, records, a),
        is_mapping(map_fn, records, b),
    ensures
        same_pairs(emitted(a), emitted(b)),
{
    assert forall|i: int| 0 <= i < a.len() implies same_pairs((#[trigger] a[i])@, b[i]@) by {
        let x = Ok::<Vec<(K, V)>, ME>(a[i]);
        let y = Ok::<Vec<(K, V)>, ME>(b[i]);
        assert(call_ensures(map_fn, (&records[i],), x));
        assert(call_ensures(map_fn, (&records[i],), y));
        assert(same_result(x, y));
    }
    lemma_emitted_agree(a, b);
}

/// With a pure `map_fn`, a map phase that can complete cannot fail.
pub proof fn lemma_mapping_excludes_failure<
    R,
    K: View,
    V,
    ME,
    MF: Fn(&R) -> Result<Vec<(K, V)>, ME>,
>(map_fn: MF, records: Seq<R>, lists: Seq<Vec<(K, V)>>, error: ME)
    requires
        map_is_pure(map_fn),
        is_mapping(map_fn, records, lists),
    ensures
        !map_fails_with(map_fn, records, error),
{
    if map_fails_with(map_fn, records, error) {
        let (i, done) = choose|i: int, done: Seq<Vec<(K, V)>>|
            {
                &&& 0 <= i < records.len()
                &&& #[trigger] is_mapping(map_fn, records.take(i), done)
                &&& call_ensures(map_fn, (&records[i],), Err::<Vec<(K, V)>, ME>(error))
            };
        let x = Ok::<Vec<(K, V)>, ME>(lists[i]);
        let y = Err::<Vec<(K, V)>, ME>(error);
        assert(call_ensures(map_fn, (&records[i],), x));
        assert(same_result(x, y));
    }
}

/// With a pure `map_fn`, a map phase can fail with one error only.
pub proof fn lemma_map_failures_agree<R, K: View, V, ME, MF: Fn(&R) -> Result<Vec<(K, V)>, ME>>(
    map_fn: MF,
    records: Seq<R>,
    first: ME,
    second: ME,
)
    requires
        map_is_pure(map_fn),
        map_fails_with(map_fn, records, first),
        map_fails_with(map_fn, records, second),
    ensures
        first == second,
{
    let (i, a) = choose|i: int, a: Seq<Vec<(K, V)>>|
        {
            &&& 0 <= i < records.len()
            &&& #[trigger] is_mapping(map_fn, records.take(i), a)
            &&& call_ensures(map_fn, (&records[i],), Err::<Vec<(K, V)>, ME>(first))
        };
    let (j, b) = choose|j: int, b: Seq<Vec<(K, V)>>|
        {
            &&& 0 <= j < records.len()
            &&& #[trigger] is_mapping(map_fn, records.take(j), b)
            &&& call_ensures(map_fn, (&records[j],), Err::<Vec<(K, V)>, ME>(second))
        };
    let x = Err::<Vec<(K, V)>, ME>(first);
    let y = Err::<Vec<(K, V)>, ME>(second);
    if i < j {
        let z = Ok::<Vec<(K, V)>, ME>(b[i]);
        assert(call_ensures(map_fn, (&records.take(j)[i],), z));
        assert(same_result(x, z));
    } else if j < i {
        let z = Ok::<Vec<(K, V)>, ME>(a[j]);
        assert(call_ensures(map_fn, (&records.take(i)[j],), z));
        assert(same_result(y, z));
    } else {
        assert(same_result(x, y));
    }
}

/// With a pure `reduce_fn`, two reduce phases on groups that agree return
/// pairs that agree.
pub proof fn lemma_reductions_agree<
    K: View,
    V,
    A,
    RE,
    RF: Fn(K, Vec<V>) -> Result<Vec<(K, A)>, RE>,
>(
    reduce_fn: RF,
    g: Seq<(K, Vec<V>)>,
    h: Seq<(K, Vec<V>)>,
    a: Seq<Vec<(K, A)>>,
    b: Seq<Vec<(K, A)>>,
)
    requires
        reduce_is_pure(reduce_fn),
        same_groups(g, h),
        is_reduction(reduce_fn, g, a),
        is_reduction(reduce_fn, h, b),
    ensures
        same_pairs(emitted(a), emitted(b)),
{
    assert forall|i: int| 0 <= i < a.len() implies same_pairs((#[trigger] a[i])@, b[i]@) by {
        let x = Ok::<Vec<(K, A)>, RE>(a[i]);
        let y = Ok::<Vec<(K, A)>, RE>(b[i]);
        assert(g[i].0@ == h[i].0@ && g[i].1@ == h[i].1@);
        assert(call_ensures(reduce_fn, (g[i].0, g[i].1), x));
        assert(call_ensures(reduce_fn, (h[i].0, h[i].1), y));
        assert(same_result(x, y));
    }
    lemma_emitted_agree(a, b);
}

/// With a pure `reduce_fn`, a reduce phase that can complete cannot fail on
/// groups that agree with its own.
pub proof fn lemma_reduction_excludes_failure<
    K: View,
    V,
    A,
    RE,
    RF: Fn(K, Vec<V>) -> Result<Vec<(K, A)>, RE>,
>(reduce_fn: RF, g: Seq<(K, Vec<V>)>, h: Seq<(K, Vec<V>)>, outputs: Seq<Vec<(K, A)>>, error: RE)
    requires
        reduce_is_pure(reduce_fn),
        same_groups(g, h),
        is_reduction(reduce_fn, g, outputs),
    ensures
        !reduce_fails_with(reduce_fn, h, error),
{
    if reduce_fails_with(reduce_fn, h, error) {
        let (i, done) = choose|i: int, done: Seq<Vec<(K, A)>>|
            {
                &&& 0 <= i < h.len()
                &&& #[trigger] is_reduction(reduce_fn, h.take(i), done)
                &&& call_ensures(reduce_fn, (h[i].0, h[i].1), Err::<Vec<(K, A)>, RE>(error))
            };
        let x = Ok::<Vec<(K, A)>, RE>(outputs[i]);
        let y = Err::<Vec<(K, A)>, RE>(error);
        assert(g[i].0@ == h[i].0@ && g[i].1@ == h[i].1@);
        assert(call_ensures(reduce_fn, (g[i].0, g[i].1), x));
        assert(same_result(x, y));
    }
}

/// With a pure `reduce_fn`, reduce phases on groups that agree can fail with
/// one error only.
pub proof fn lemma_reduce_failures_agree<
    K: View,
    V,
    A,
    RE,
    RF: Fn(K, Vec<V>) -> Result<Vec<(K, A)>, RE>,
>(reduce_fn: RF, g: Seq<(K, Vec<V>)>, h: Seq<(K, Vec<V>)>, first: RE, second: RE)
    requires
        reduce_is_pure(reduce_fn),
        same_groups(g, h),
        reduce_fails_with(reduce_fn, g, first),
        reduce_fails_with(reduce_fn, h, second),
    ensures
        first == second,
{
    let (i, a) = choose|i: int, a: Seq<Vec<(K, A)>>|
        {
            &&& 0 <= i < g.len()
            &&& #[trigger] is_reduction(reduce_fn, g.take(i), a)
            &&& call_ensures(reduce_fn, (g[i].0, g[i].1), Err::<Vec<(K, A)>, RE>(first))
        };
    let (j, b) = choose|j: int, b: Seq<Vec<(K, A)>>|
        {
            &&& 0 <= j < h.len()
            &&& #[trigger] is_reduction(reduce_fn, h.take(j), b)
            &&& call_ensures(reduce_fn, (h[j].0, h[j].1), Err::<Vec<(K, A)>, RE>(second))
        };
    let x = Err::<Vec<(K, A)>, RE>(first);
    let y = Err::<Vec<(K, A)>, RE>(second);
    assert(g[i].0@ == h[i].0@ && g[i].1@ == h[i].1@);
    assert(g[j].0@ == h[j].0@ && g[j].1@ == h[j].1@);
    if i < j {
        let z = Ok::<Vec<(K, A)>, RE>(b[i]);
        assert(call_ensures(reduce_fn, (h.take(j)[i].0, h.take(j)[i].1), z));
        assert(same_result(x, z));
    } else if j < i {
        let z = Ok::<Vec<(K, A)>, RE>(a[j]);
        assert(call_ensures(reduce_fn, (g.take(i)[j].0, g.take(i)[j].1), z));
        assert(same_result(z, y));
    } else {
        assert(same_result(x, y));
    }
}

/// Two outcomes of a run agree: both are pairs that agree, or both are the
/// same error.
pub open spec fn same_outcome<K: View, A, ME, RE>(
    a: Result<Vec<(K, A)>, EvaluateError<ME, RE>>,
    b: Result<Vec<(K, A)>, EvaluateError<ME, RE>>,
) -> bool {
    match (a, b) {
        (Ok(x), Ok(y)) => same_pairs(x@, y@),
        (Err(e), Err(f)) => e == f,
        _ => false,
    }
}

/// Running twice gives the same: with pure functions, any two outcomes of a
/// run on the same records agree, in the pairs and their order, or in the
/// error.
pub proof fn lemma_pure_runs_agree<
    R,
    K: View,
    V,
    A,
    ME,
    RE,
    MF: Fn(&R) -> Result<Vec<(K, V)>, ME>,
    RF: Fn(K, Vec<V>) -> Result<Vec<(K, A)>, RE>,
>(
    map_fn: MF,
    reduce_fn: RF,
    records: Seq<R>,
    first: Result<Vec<(K, A)>, EvaluateError<ME, RE>>,
    second: Result<Vec<(K, A)>, EvaluateError<ME, RE>>,
)
    requires
        map_is_pure(map_fn),
        reduce_is_pure(reduce_fn),
        is_outcome(map_fn, reduce_fn, records, first),
        is_outcome(map_fn, reduce_fn, records, second),
    ensures
        same_outcome(first, second),
{
    match (first, second) {
        (Err(EvaluateError::MapError(e)), Err(EvaluateError::MapError(f))) => {
            lemma_map_failures_agree(map_fn, records, e, f);
        },
        (Err(EvaluateError::MapError(e)), other) => {
            lemma_completed_map_excludes_failure(map_fn, reduce_fn, records, other, e);
        },
        (other, Err(EvaluateError::MapError(e))) => {
            lemma_completed_map_excludes_failure(map_fn, reduce_fn, records, other, e);
        },
        (Ok(x), Ok(y)) => {
            let (l1, g1, o1) = run_of(map_fn, reduce_fn, records, x@);
            let (l2, g2, o2) = run_of(map_fn, reduce_fn, records, y@);
            lemma_mappings_agree(map_fn, records, l1, l2);
            lemma_groupings_agree(emitted(l1), emitted(l2), g1, g2);
            lemma_reductions_agree(reduce_fn, g1, g2, o1, o2);
        },
        (Ok(x), Err(EvaluateError::ReduceError(f))) => {
            let (l1, g1, o1) = run_of(map_fn, reduce_fn, records, x@);
            let (l2, g2) = failed_run_of(map_fn, reduce_fn, records, f);
            lemma_mappings_agree(map_fn, records, l1, l2);
            lemma_groupings_agree(emitted(l1), emitted(l2), g1, g2);
            lemma_reduction_excludes_failure(reduce_fn, g1, g2, o1, f);
        },
        (Err(EvaluateError::ReduceError(e)), Ok(y)) => {
            let (l1, g1) = failed_run_of(map_fn, reduce_fn, records, e);
            let (l2, g2, o2) = run_of(map_fn, reduce_fn, records, y@);
            lemma_mappings_agree(map_fn, records, l2, l1);
            lemma_groupings_agree(emitted(l2), emitted(l1), g2, g1);
            lemma_reduction_excludes_failure(reduce_fn, g2, g1, o2, e);
        },
        (Err(EvaluateError::ReduceError(e)), Err(EvaluateError::ReduceError(f))) => {
            let (l1, g1) = failed_run_of(map_fn, reduce_fn, records, e);
            let (l2, g2) = failed_run_of(map_fn, reduce_fn, records, f);
            lemma_mappings_agree(map_fn, records, l1, l2);
            lemma_groupings_agree(emitted(l1), emitted(l2), g1, g2);
            lemma_reduce_failures_agree(reduce_fn, g1, g2, e, f);
        },
    }
}

/// The lists, groups and outputs of a complete run that gives `result`.
pub open spec fn run_of<
    R,
    K: View,
    V,
    A,
    ME,
    RE,
    MF: Fn(&R) -> Result<Vec<(K, V)>, ME>,
    RF: Fn(K, Vec<V>) -> Result<Vec<(K, A)>, RE>,
>(map_fn: MF, reduce_fn: RF, records: Seq<R>, result: Seq<(K, A)>) -> (
    Seq<Vec<(K, V)>>,
    Seq<(K, Vec<V>)>,
    Seq<Vec<(K, A)>>,
) {
    choose|lists: Seq<Vec<(K, V)>>, groups: Seq<(K, Vec<V>)>, outputs: Seq<Vec<(K, A)>>|
        #![trigger is_mapping(map_fn, records, lists), is_reduction(reduce_fn, groups, outputs)]
        {
            &&& is_mapping(map_fn, records, lists)
            &&& is_grouping(emitted(lists), groups)
            &&& is_reduction(reduce_fn, groups, outputs)
            &&& result == emitted(outputs)
        }
}

/// The lists and groups of a run whose reduce phase fails with `error`.
pub open spec fn failed_run_of<
    R,
    K: View,
    V,
    A,
    ME,
    RE,
    MF: Fn(&R) -> Result<Vec<(K, V)>, ME>,
    RF: Fn(K, Vec<V>) -> Result<Vec<(K, A)>, RE>,
>(map_fn: MF, reduce_fn: RF, records: Seq<R>, error: RE) -> (
    Seq<Vec<(K, V)>>,
    Seq<(K, Vec<V>)>,
) {
    choose|lists: Seq<Vec<(K, V)>>, groups: Seq<(K, Vec<V>)>|
        #![trigger is_mapping(map_fn, records, lists), is_grouping(emitted(lists), groups)]
        {
            &&& is_mapping(map_fn, records, lists)
            &&& is_grouping(emitted(lists), groups)
            &&& reduce_fails_with(reduce_fn, groups, error)
        }
}

/// With a pure `map_fn`, an outcome that is not a failure of the map phase
/// shows that the map phase cannot fail.
pub proof fn lemma_completed_map_excludes_failure<
    R,
    K: View,
    V,
    A,
    ME,
    RE,
    MF: Fn(&R) -> Result<Vec<(K, V)>, ME>,
    RF: Fn(K, Vec<V>) -> Result<Vec<(K, A)>, RE>,
>(
    map_fn: MF,
    reduce_fn: RF,
    records: Seq<R>,
    outcome: Result<Vec<(K, A)>, EvaluateError<ME, RE>>,
    error: ME,
)
    requires
        map_is_pure(map_fn),
        is_outcome(map_fn, reduce_fn, records, outcome),
        !(outcome matches Err(EvaluateError::MapError(_))),
    ensures
        !map_fails_with(map_fn, records, error),
{
    match outcome {
        Ok(x) => {
            let (lists, groups, outputs) = run_of(map_fn, reduce_fn, records, x@);
            lemma_mapping_excludes_failure(map_fn, records, lists, error);
        },
        Err(EvaluateError::ReduceError(e)) => {
            let (lists, groups) = failed_run_of(map_fn, reduce_fn, records, e);
            lemma_mapping_excludes_failure(map_fn, records, lists, error);
        },
        Err(EvaluateError::MapError(_)) => {},
    }
}

} // verus!
