//! Counting words with the evaluator: a mapping function that splits a line
//! into words and a reducing function that adds up the counts of one word.

use vstd::prelude::*;
use vstd::string::*;
use crate::evaluator::{evaluate, EvaluateError};
use crate::laws::{lemma_emitted_push, run_of, failed_run_of};
use crate::model::{emitted, values_for, has_key, distinct_keys, is_grouping, eq_decides_view};
use crate::model::{is_mapping, is_reduction, lemma_values_for_push};

verus! {

/// The sum of the counts of a word does not fit in an `isize`.
#[derive(Debug, Clone, Copy, PartialEq, Eq)]
pub struct Overflow;

/// The words of `text`: the stretches between its space characters, from
/// left to right. A text without a space is one word, and two spaces in a
/// row, or a space at either end, give an empty word.
pub open spec fn words(text: Seq<char>) -> Seq<Seq<char>>
    decreases text.len(),
{
    if text.len() == 0 {
        seq![Seq::<char>::empty()]
    } else {
        let before = words(text.drop_last());
        if text.last() == ' ' {
            before.push(Seq::<char>::empty())
        } else {
            before.update(before.len() - 1, before.last().push(text.last()))
        }
    }
}

/// The sum of `values`.
pub open spec fn total(values: Seq<isize>) -> int
    decreases values.len(),
{
    if values.len() == 0 {
        0
    } else {
        total(values.drop_last()) + values.last()
    }
}

/// `pairs` lists `words` in order, each with the count one.
pub open spec fn counts_each_once(pairs: Seq<(String, isize)>, words: Seq<Seq<char>>) -> bool {
    &&& pairs.len() == words.len()
    &&& forall|i: int| 0 <= i < pairs.len() ==> (#[trigger] pairs[i]).0@ == words[i] && pairs[i].1 == 1
}

/// A text has at least one word.
pub proof fn lemma_words_nonempty(text: Seq<char>)
    ensures
        words(text).len() >= 1,
    decreases text.len(),
{
    if text.len() > 0 {
        lemma_words_nonempty(text.drop_last());
    }
}

/// `words` written one after the other with one space between each two.
pub open spec fn joined(words: Seq<Seq<char>>) -> Seq<char>
    decreases words.len(),
{
    if words.len() == 0 {
        Seq::empty()
    } else if words.len() == 1 {
        words[0]
    } else {
        joined(words.drop_last()) + seq![' '] + words.last()
    }
}

/// The words of a text are what splitting at the spaces means: no word
/// holds a space, and the words joined by spaces are the text again.
pub proof fn lemma_words_split_at_spaces(text: Seq<char>)
    ensures
        joined(words(text)) == text,
        forall|i: int, j: int|
            0 <= i < words(text).len() && 0 <= j < words(text)[i].len() ==> #[trigger] words(
                text,
            )[i][j] != ' ',
    decreases text.len(),
{
    if text.len() > 0 {
        let shorter = text.drop_last();
        let before = words(shorter);
        let c = text.last();
        lemma_words_split_at_spaces(shorter);
        lemma_words_nonempty(shorter);
        if c == ' ' {
            let after = before.push(Seq::<char>::empty());
            assert(after.drop_last() =~= before);
            assert(joined(after) =~= text);
        } else {
            let grown = before.last().push(c);
            let after = before.update(before.len() - 1, grown);
            assert(after.drop_last() =~= before.drop_last());
            assert(shorter.push(c) =~= text);
            if before.len() == 1 {
                assert(joined(before) == before[0]);
                assert(joined(after) == grown);
            } else {
                let head = joined(before.drop_last()) + seq![' '];
                assert(joined(before) == head + before.last());
                assert(joined(after) == head + grown);
                assert(head + grown =~= (head + before.last()).push(c));
            }
            assert forall|i: int, j: int|
                0 <= i < after.len() && 0 <= j < after[i].len() implies #[trigger] after[i][j]
                != ' ' by {
                if i < before.len() - 1 {
                    assert(before[i][j] != ' ');
                } else if j < before.last().len() {
                    assert(before[i][j] != ' ');
                }
            }
        }
    }
}

/// Reading one more character either opens a new, empty word or extends the
/// last word.
proof fn lemma_words_step(text: Seq<char>, done: Seq<Seq<char>>, start: int, pos: int)
    requires
        0 <= start <= pos < text.len(),
        words(text.take(pos)) == done.push(text.subrange(start, pos)),
    ensures
        text[pos] == ' ' ==> words(text.take(pos + 1)) == done.push(
            text.subrange(start, pos),
        ).push(text.subrange(pos + 1, pos + 1)),
        text[pos] != ' ' ==> words(text.take(pos + 1)) == done.push(text.subrange(start, pos + 1)),
{
    let next = text.take(pos + 1);
    assert(next.drop_last() =~= text.take(pos));
    assert(next.last() == text[pos]);
    let before = done.push(text.subrange(start, pos));
    if text[pos] == ' ' {
        assert(text.subrange(pos + 1, pos + 1) =~= Seq::<char>::empty());
    } else {
        assert(text.subrange(start, pos).push(text[pos]) =~= text.subrange(start, pos + 1));
        assert(before.update(before.len() - 1, before.last().push(text[pos])) =~= done.push(
            text.subrange(start, pos + 1),
        ));
    }
}

/// The mapping function of the word count: emits each word of `s`, in order,
/// with the count one. It never fails.
pub fn create_pairs(s: &String) -> (result: Result<Vec<(String, isize)>, Overflow>)
    ensures
        result matches Ok(pairs) && counts_each_once(pairs@, words(s@)),
{
    let text = s.as_str();
    let length = text.unicode_len();
    let ghost mut done: Seq<Seq<char>> = Seq::empty();
    let mut retvals: Vec<(String, isize)> = Vec::new();
    let mut start: usize = 0;
    let mut pos: usize = 0;
    proof {
        assert(text@.take(0) =~= Seq::<char>::empty());
        assert(text@.subrange(0, 0) =~= Seq::<char>::empty());
        assert(words(text@.take(0)) =~= done.push(text@.subrange(0, 0)));
    }
    for c in iter: text.chars()
        invariant
            length == text@.len(),
            iter.seq() == text@,
            pos == iter.index(),
            start <= pos,
            counts_each_once(retvals@, done),
            words(text@.take(pos as int)) == done.push(text@.subrange(start as int, pos as int)),
    {
        proof {
            lemma_words_step(text@, done, start as int, pos as int);
        }
        if c == ' ' {
            let word = text.substring_char(start, pos);
            retvals.push((word.to_owned(), 1));
            proof {
                done = done.push(word@);
            }
            start = pos + 1;
        }
        pos = pos + 1;
    }
    let word = text.substring_char(start, pos);
    retvals.push((word.to_owned(), 1));
    proof {
        assert(text@.take(pos as int) =~= text@);
    }
    Ok(retvals)
}

/// The sum of the first `n` values lies within `n` times the range of one.
proof fn lemma_total_bounds(values: Seq<isize>, n: int)
    requires
        0 <= n <= values.len(),
    ensures
        n * isize::MIN <= total(values.take(n)) <= n * isize::MAX,
        n < values.len() ==> total(values.take(n + 1)) == total(values.take(n)) + values[n],
    decreases n,
{
    if n > 0 {
        lemma_total_bounds(values, n - 1);
        assert(values.take(n).drop_last() =~= values.take(n - 1));
        assert(n * isize::MIN == (n - 1) * isize::MIN + isize::MIN) by (nonlinear_arith);
        assert(n * isize::MAX == (n - 1) * isize::MAX + isize::MAX) by (nonlinear_arith);
    } else {
        assert(0 * isize::MIN == 0 && 0 * isize::MAX == 0);
    }
    if n < values.len() {
        assert(values.take(n + 1).drop_last() =~= values.take(n));
    }
}

/// The reducing function of the word count: gives `key` with the sum of
/// `vals`, or fails where that sum does not fit in an `isize`.
pub fn reduce_pairs(key: String, vals: Vec<isize>) -> (result: Result<
    Vec<(String, isize)>,
    Overflow,
>)
    ensures
        match result {
            Ok(pairs) => pairs@.len() == 1 && pairs@[0].0 == key && pairs@[0].1 == total(vals@),
            Err(_) => total(vals@) < isize::MIN || total(vals@) > isize::MAX,
        },
{
    let mut sum: i128 = 0;
    let mut i: usize = 0;
    while i < vals.len()
        invariant
            i <= vals.len(),
            sum == total(vals@.take(i as int)),
        decreases vals.len() - i,
    {
        proof {
            lemma_total_bounds(vals@, i as int);
            lemma_total_bounds(vals@, i as int + 1);
            assert(i * isize::MIN >= usize::MAX * isize::MIN) by (nonlinear_arith)
                requires
                    0 <= i <= usize::MAX,
                    isize::MIN <= 0,
            ;
            assert((i + 1) * isize::MAX <= usize::MAX * isize::MAX) by (nonlinear_arith)
                requires
                    0 <= i + 1 <= usize::MAX,
                    isize::MAX >= 0,
            ;
            assert((i + 1) * isize::MIN >= usize::MAX * isize::MIN) by (nonlinear_arith)
                requires
                    0 <= i + 1 <= usize::MAX,
                    isize::MIN <= 0,
            ;
            assert(usize::MAX * isize::MAX <= 0xffff_ffff_ffff_ffff * 0x7fff_ffff_ffff_ffff)
                by (nonlinear_arith)
                requires
                    0 <= usize::MAX <= 0xffff_ffff_ffff_ffff,
                    0 <= isize::MAX <= 0x7fff_ffff_ffff_ffff,
            ;
            assert(usize::MAX * isize::MIN >= 0xffff_ffff_ffff_ffff * -0x8000_0000_0000_0000)
                by (nonlinear_arith)
                requires
                    0 <= usize::MAX <= 0xffff_ffff_ffff_ffff,
                    0 >= isize::MIN >= -0x8000_0000_0000_0000,
            ;
        }
        sum = sum + vals[i] as i128;
        i += 1;
    }
    proof {
        assert(vals@.take(vals.len() as int) =~= vals@);
    }
    if sum < isize::MIN as i128 || sum > isize::MAX as i128 {
        return Err(Overflow);
    }
    let mut pairs: Vec<(String, isize)> = Vec::new();
    pairs.push((key, sum as isize));
    Ok(pairs)
}

/// All the words of `records`: those of the first record, then those of the
/// second, and so on.
pub open spec fn all_words(records: Seq<String>) -> Seq<Seq<char>> {
    records.map_values(|r: String| words(r@)).flatten()
}

/// `words` without repetition: each word once, in the order in which the
/// words first occur.
pub open spec fn distinct(words: Seq<Seq<char>>) -> Seq<Seq<char>>
    decreases words.len(),
{
    if words.len() == 0 {
        Seq::empty()
    } else {
        let earlier = distinct(words.drop_last());
        if earlier.contains(words.last()) {
            earlier
        } else {
            earlier.push(words.last())
        }
    }
}

/// How often `word` occurs among `words`.
pub open spec fn count_of(words: Seq<Seq<char>>, word: Seq<char>) -> nat {
    words.filter(|w: Seq<char>| w == word).len()
}

/// `counts` is the word count of `words`: each distinct word once, in the
/// order of first occurrence, with the number of its occurrences.
pub open spec fn is_word_count(counts: Seq<(String, isize)>, words: Seq<Seq<char>>) -> bool {
    &&& counts.len() == distinct(words).len()
    &&& forall|i: int|
        0 <= i < counts.len() ==> {
            &&& (#[trigger] counts[i]).0@ == distinct(words)[i]
            &&& counts[i].1 == count_of(words, distinct(words)[i])
        }
}

/// Lists that count the words of each record once hold, together, each word
/// of all the records once.
proof fn lemma_emitted_counts_words(lists: Seq<Vec<(String, isize)>>, records: Seq<String>)
    requires
        lists.len() == records.len(),
        forall|i: int|
            0 <= i < lists.len() ==> counts_each_once((#[trigger] lists[i])@, words(records[i]@)),
    ensures
        counts_each_once(emitted(lists), all_words(records)),
    decreases lists.len(),
{
    let split = |r: String| words(r@);
    if lists.len() == 0 {
        assert(lists.map_values(|l: Vec<(String, isize)>| l@) =~= Seq::<
            Seq<(String, isize)>,
        >::empty());
        assert(records.map_values(split) =~= Seq::<Seq<Seq<char>>>::empty());
    } else {
        let n = lists.len() - 1;
        assert forall|i: int| 0 <= i < n implies counts_each_once(
            (#[trigger] lists.drop_last()[i])@,
            words(records.drop_last()[i]@),
        ) by {
            assert(counts_each_once(lists[i]@, words(records[i]@)));
        }
        lemma_emitted_counts_words(lists.drop_last(), records.drop_last());
        assert(counts_each_once(lists[n]@, words(records[n]@)));
        assert(lists.drop_last().push(lists[n]) =~= lists);
        lemma_emitted_push(lists.drop_last(), lists[n]);
        assert(records.map_values(split) =~= records.drop_last().map_values(split).push(
            words(records[n]@),
        ));
        records.drop_last().map_values(split).lemma_flatten_push(words(records[n]@));
    }
}

/// Adding one to a sequence of values adds one to its sum.
proof fn lemma_total_push(values: Seq<isize>, value: isize)
    ensures
        total(values.push(value)) == total(values) + value,
{
    assert(values.push(value).drop_last() =~= values);
}

/// Where `pairs` counts each of `words` once, the distinct keys of `pairs`
/// are the distinct words, and the values of a word add up to the number of
/// its occurrences.
proof fn lemma_groups_count_words(pairs: Seq<(String, isize)>, words: Seq<Seq<char>>)
    requires
        counts_each_once(pairs, words),
    ensures
        distinct_keys(pairs).len() == distinct(words).len(),
        forall|i: int|
            0 <= i < distinct(words).len() ==> (#[trigger] distinct_keys(pairs)[i])@ == distinct(
                words,
            )[i],
        forall|word: Seq<char>| #[trigger] total(values_for(pairs, word)) == count_of(words, word),
    decreases pairs.len(),
{
    if pairs.len() == 0 {
        assert forall|word: Seq<char>| #[trigger]
            total(values_for(pairs, word)) == count_of(words, word) by {
            reveal(Seq::filter);
            assert(values_for(pairs, word) =~= Seq::<isize>::empty());
        }
    } else {
        let p_init = pairs.drop_last();
        let w_init = words.drop_last();
        let n = pairs.len() - 1;
        assert(counts_each_once(p_init, w_init)) by {
            assert forall|i: int| 0 <= i < p_init.len() implies (#[trigger] p_init[i]).0@ == w_init[i]
                && p_init[i].1 == 1 by {
                assert(pairs[i].0@ == words[i]);
            }
        }
        lemma_groups_count_words(p_init, w_init);
        assert(pairs[n].0@ == words[n] && pairs[n].1 == 1);
        let word = words[n];
        assert(has_key(distinct_keys(p_init), word) <==> distinct(w_init).contains(word)) by {
            if has_key(distinct_keys(p_init), word) {
                let i = choose|i: int|
                    0 <= i < distinct_keys(p_init).len() && (#[trigger] distinct_keys(p_init)[i])@ == word;
                assert(distinct(w_init)[i] == word);
            }
            if distinct(w_init).contains(word) {
                let i = choose|i: int| 0 <= i < distinct(w_init).len() && distinct(w_init)[i] == word;
                assert(distinct_keys(p_init)[i]@ == word);
            }
        }
        assert(p_init.push(pairs[n]) =~= pairs);
        assert(w_init.push(word) =~= words);
        assert forall|w: Seq<char>| #[trigger] total(values_for(pairs, w)) == count_of(
            words,
            w,
        ) by {
            lemma_values_for_push(p_init, pairs[n], w);
            lemma_total_push(values_for(p_init, w), 1);
            w_init.lemma_filter_push(word, |x: Seq<char>| x == w);
            assert(total(values_for(p_init, w)) == count_of(w_init, w));
        }
    }
}

/// Outputs of one pair each hold, together, these pairs in order.
proof fn lemma_emitted_singles<T>(outputs: Seq<Vec<T>>)
    requires
        forall|i: int| 0 <= i < outputs.len() ==> (#[trigger] outputs[i])@.len() == 1,
    ensures
        emitted(outputs).len() == outputs.len(),
        forall|i: int| 0 <= i < outputs.len() ==> emitted(outputs)[i] == (#[trigger] outputs[i])@[0],
    decreases outputs.len(),
{
    if outputs.len() == 0 {
        assert(outputs.map_values(|l: Vec<T>| l@) =~= Seq::<Seq<T>>::empty());
    } else {
        let n = outputs.len() - 1;
        assert forall|i: int| 0 <= i < n implies (#[trigger] outputs.drop_last()[i])@.len()
            == 1 by {
            assert(outputs[i]@.len() == 1);
        }
        lemma_emitted_singles(outputs.drop_last());
        assert(outputs[n]@.len() == 1);
        assert(outputs.drop_last().push(outputs[n]) =~= outputs);
        lemma_emitted_push(outputs.drop_last(), outputs[n]);
        assert forall|i: int| 0 <= i < outputs.len() implies emitted(outputs)[i] == (
        #[trigger] outputs[i])@[0] by {
            if i < n {
                assert(emitted(outputs.drop_last())[i] == outputs.drop_last()[i]@[0]);
            }
        }
    }
}

/// Counts the words of `records`: maps each record with `create_pairs`,
/// groups the words, and adds up each group with `reduce_pairs`. Gives each
/// distinct word once, in the order in which the words first occur, with
/// the number of its occurrences; fails only where a word occurs more often
/// than an `isize` can say.
pub fn count_words(records: &Vec<String>) -> (result: Result<
    Vec<(String, isize)>,
    EvaluateError<Overflow, Overflow>,
>)
    ensures
        match result {
            Ok(counts) => is_word_count(counts@, all_words(records@)),
            Err(EvaluateError::ReduceError(_)) => exists|word: Seq<char>| #[trigger]
                count_of(all_words(records@), word) > isize::MAX,
            Err(EvaluateError::MapError(_)) => false,
        },
{
    assert(eq_decides_view::<String>());
    let result = evaluate(records, create_pairs, reduce_pairs);
    let ghost outcome = result;
    proof {
        let all = all_words(records@);
        assert forall|lists: Seq<Vec<(String, isize)>>, groups: Seq<(String, Vec<isize>)>|
            is_mapping(create_pairs, records@, lists) && #[trigger] is_grouping(
                emitted(lists),
                groups,
            ) implies {
            &&& groups.len() == distinct(all).len()
            &&& forall|i: int|
                0 <= i < groups.len() ==> {
                    &&& (#[trigger] groups[i]).0@ == distinct(all)[i]
                    &&& total(groups[i].1@) == count_of(all, distinct(all)[i])
                }
        } by {
            assert forall|i: int| 0 <= i < lists.len() implies counts_each_once(
                (#[trigger] lists[i])@,
                words(records@[i]@),
            ) by {
                assert(call_ensures(
                    create_pairs,
                    (&records@[i],),
                    Ok::<Vec<(String, isize)>, Overflow>(lists[i]),
                ));
            }
            lemma_emitted_counts_words(lists, records@);
            lemma_groups_count_words(emitted(lists), all);
            assert forall|i: int| 0 <= i < groups.len() implies {
                &&& (#[trigger] groups[i]).0@ == distinct(all)[i]
                &&& total(groups[i].1@) == count_of(all, distinct(all)[i])
            } by {
                assert(groups[i].0 == distinct_keys(emitted(lists))[i]);
                assert(total(values_for(emitted(lists), distinct(all)[i])) == count_of(
                    all,
                    distinct(all)[i],
                ));
            }
        }
        match outcome {
            Ok(counts) => {
                let (lists, groups, outputs) = run_of(
                    create_pairs,
                    reduce_pairs,
                    records@,
                    counts@,
                );
                assert forall|i: int| 0 <= i < outputs.len() implies {
                    &&& (#[trigger] outputs[i])@.len() == 1
                    &&& outputs[i]@[0].0 == groups[i].0
                    &&& outputs[i]@[0].1 == total(groups[i].1@)
                } by {
                    assert(call_ensures(
                        reduce_pairs,
                        (groups[i].0, groups[i].1),
                        Ok::<Vec<(String, isize)>, Overflow>(outputs[i]),
                    ));
                }
                lemma_emitted_singles(outputs);
                assert forall|i: int| 0 <= i < counts@.len() implies {
                    &&& (#[trigger] counts@[i]).0@ == distinct(all)[i]
                    &&& counts@[i].1 == count_of(all, distinct(all)[i])
                } by {
                    assert(counts@[i] == outputs[i]@[0]);
                    assert(groups[i].0@ == distinct(all)[i]);
                }
            },
            Err(EvaluateError::ReduceError(error)) => {
                let (lists, groups) = failed_run_of(
                    create_pairs,
                    reduce_pairs,
                    records@,
                    error,
                );
                let (i, done) = choose|i: int, done: Seq<Vec<(String, isize)>>|
                    {
                        &&& 0 <= i < groups.len()
                        &&& #[trigger] is_reduction(reduce_pairs, groups.take(i), done)
                        &&& call_ensures(
                            reduce_pairs,
                            (groups[i].0, groups[i].1),
                            Err::<Vec<(String, isize)>, Overflow>(error),
                        )
                    };
                assert(groups[i].0@ == distinct(all)[i]);
                assert(count_of(all, distinct(all)[i]) > isize::MAX);
            },
            Err(EvaluateError::MapError(error)) => {
                let (i, done) = choose|i: int, done: Seq<Vec<(String, isize)>>|
                    {
                        &&& 0 <= i < records@.len()
                        &&& #[trigger] is_mapping(create_pairs, records@.take(i), done)
                        &&& call_ensures(
                            create_pairs,
                            (&records@[i],),
                            Err::<Vec<(String, isize)>, Overflow>(error),
                        )
                    };
            },
        }
    }
    result
}

} // verus!
