//! The evaluator: a whole map-reduce run over an ordered sequence of records.

use vstd::prelude::*;
use crate::model::{eq_decides_view, emitted, is_mapping, is_grouping, is_reduction};
use crate::model::{map_fails_with, reduce_accepts_groups, is_evaluation, reduce_phase_fails_with};
use crate::phases::{map_records, group_pairs, reduce_groups};

verus! {

/// Why a run did not produce a result.
#[derive(Debug, PartialEq, Eq)]
pub enum EvaluateError<ME, RE> {
    /// The mapping function failed on a record, with this error.
    MapError(ME),
    /// The reducing function failed on a group, with this error.
    ReduceError(RE),
}

/// `result` is an outcome of a run on `records`: the pairs of a complete run,
/// or the error of a run that one of the two functions ended.
pub open spec fn is_outcome<
    R,
    K: View,
    V,
    A,
    ME,
    RE,
    MF: Fn(&R) -> Result<Vec<(K, V)>, ME>,
    RF: Fn(K, Vec<V>) -> Result<Vec<(K, A)>, RE>,
>(map_fn: MF, reduce_fn: RF, records: Seq<R>, result: Result<Vec<(K, A)>, EvaluateError<ME, RE>>)
    -> bool {
    match result {
        Ok(reduced) => is_evaluation(map_fn, reduce_fn, records, reduced@),
        Err(EvaluateError::MapError(error)) => map_fails_with(map_fn, records, error),
        Err(EvaluateError::ReduceError(error)) => reduce_phase_fails_with(
            map_fn,
            reduce_fn,
            records,
            error,
        ),
    }
}

/// Runs `map_fn` over `records`, groups the emitted pairs by key, and runs
/// `reduce_fn` once on each group, in the order in which the keys first
/// occur. Returns the concatenation of what the reduce calls return.
///
/// The first error of either function is handed back at once: nothing is
/// mapped or reduced after it, and no partial result is returned.
pub fn evaluate<
    R,
    K: View + PartialEq,
    V,
    A,
    ME,
    RE,
    MF: Fn(&R) -> Result<Vec<(K, V)>, ME>,
    RF: Fn(K, Vec<V>) -> Result<Vec<(K, A)>, RE>,
>(records: &Vec<R>, map_fn: MF, reduce_fn: RF) -> (result: Result<
    Vec<(K, A)>,
    EvaluateError<ME, RE>,
>)
    requires
        eq_decides_view::<K>(),
        forall|i: int| 0 <= i < records.len() ==> call_requires(map_fn, (&#[trigger] records[i],)),
        reduce_accepts_groups(map_fn, reduce_fn, records@),
    ensures
        is_outcome(map_fn, reduce_fn, records@, result),
        records.len() == 0 ==> (result matches Ok(reduced) && reduced@.len() == 0),
{
    let lists = match map_records(records, &map_fn) {
        Ok(lists) => lists,
        Err(error) => {
            return Err(EvaluateError::MapError(error));
        },
    };
    let ghost mapped = lists@;
    let groups = group_pairs(lists);
    let ghost grouped = groups@;
    proof {
        if records.len() == 0 {
            assert(mapped.map_values(|l: Vec<(K, V)>| l@) =~= Seq::<Seq<(K, V)>>::empty());
            assert(emitted(mapped) =~= Seq::<(K, V)>::empty());
            assert(grouped.len() == 0);
        }
        assert forall|i: int| 0 <= i < grouped.len() implies call_requires(
            reduce_fn,
            ((#[trigger] grouped[i]).0, grouped[i].1),
        ) by {
            assert(is_mapping(map_fn, records@, mapped));
            assert(is_grouping(emitted(mapped), grouped));
        }
    }
    match reduce_groups(groups, &reduce_fn) {
        Ok(reduced) => {
            proof {
                let outputs = choose|outputs: Seq<Vec<(K, A)>>| #[trigger]
                    is_reduction(reduce_fn, grouped, outputs) && reduced@ == emitted(outputs);
                assert(is_mapping(map_fn, records@, mapped));
                if records.len() == 0 {
                    assert(outputs.map_values(|l: Vec<(K, A)>| l@) =~= Seq::<
                        Seq<(K, A)>,
                    >::empty());
                }
            }
            Ok(reduced)
        },
        Err(error) => {
            proof {
                assert(is_mapping(map_fn, records@, mapped));
                assert(is_grouping(emitted(mapped), grouped));
            }
            Err(EvaluateError::ReduceError(error))
        },
    }
}

/// Map-reduce as a method of a collection of records.
pub trait MapReduce {
    /// The records of the collection, in order.
    spec fn records(&self) -> Seq<String>;

    /// Runs `mapf` and `redf` over the records, as `evaluate` does.
    fn mapreduce<
        K: View + PartialEq,
        V,
        ME,
        RE,
        MF: Fn(&String) -> Result<Vec<(K, V)>, ME>,
        RF: Fn(K, Vec<V>) -> Result<Vec<(K, V)>, RE>,
    >(&self, mapf: MF, redf: RF) -> (result: Result<Vec<(K, V)>, EvaluateError<ME, RE>>)
        requires
            eq_decides_view::<K>(),
            forall|i: int|
                0 <= i < self.records().len() ==> call_requires(
                    mapf,
                    (&#[trigger] self.records()[i],),
                ),
            reduce_accepts_groups(mapf, redf, self.records()),
        ensures
            is_outcome(mapf, redf, self.records(), result),
            self.records().len() == 0 ==> (result matches Ok(reduced) && reduced@.len() == 0),
    ;
}

impl MapReduce for Vec<String> {
    open spec fn records(&self) -> Seq<String> {
        self@
    }

    fn mapreduce<
        K: View + PartialEq,
        V,
        ME,
        RE,
        MF: Fn(&String) -> Result<Vec<(K, V)>, ME>,
        RF: Fn(K, Vec<V>) -> Result<Vec<(K, V)>, RE>,
    >(&self, mapf: MF, redf: RF) -> (result: Result<Vec<(K, V)>, EvaluateError<ME, RE>>) {
        evaluate(self, mapf, redf)
    }
}

} // verus!
