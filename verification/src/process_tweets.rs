//! Aggregation of per-record token counts into one corpus-wide count map,
//! either by a sequential fold or by a parallel map-reduce over the records.
//! Both paths yield the same mapping: for every token, the number of its
//! occurrences summed over all records.

use vstd::prelude::*;
use rayon::iter::IntoParallelIterator;
use rayon::iter::IntoParallelRefIterator;
use rayon::iter::ParallelIterator;

use crate::count_map::CountMap;
use crate::count_map::WordAndCount;
use crate::ranking::entry_views;
use crate::ranking::is_ranking_of;
use crate::ranking::processed_tweets_to_priority_queue;
use crate::count_map::count_or_zero;
use crate::count_map::merge_map;
use crate::tokenize::tokenize;
use crate::tokenize::tokens_of;

verus! {

/// How many entries of `toks` equal the token `t`.
pub open spec fn occ(toks: Seq<Seq<char>>, t: Seq<char>) -> int
    decreases toks.len(),
{
    if toks.len() == 0 {
        0
    } else {
        occ(toks.drop_last(), t) + if toks.last() == t {
            1int
        } else {
            0int
        }
    }
}

pub proof fn lemma_occ_nonneg(toks: Seq<Seq<char>>, t: Seq<char>)
    ensures
        occ(toks, t) >= 0,
    decreases toks.len(),
{
    if toks.len() > 0 {
        lemma_occ_nonneg(toks.drop_last(), t);
    }
}

/// The count map of a token sequence: every token that appears maps to the
/// number of its appearances.
pub open spec fn counts_of_tokens(toks: Seq<Seq<char>>) -> Map<Seq<char>, int> {
    Map::new(|t: Seq<char>| occ(toks, t) >= 1, |t: Seq<char>| occ(toks, t))
}

/// Absent tokens count 0, so the count of any token is its occurrence count.
pub proof fn lemma_counts_value(toks: Seq<Seq<char>>, t: Seq<char>)
    ensures
        count_or_zero(counts_of_tokens(toks), t) == occ(toks, t),
{
    lemma_occ_nonneg(toks, t);
}

/// Appending one token raises exactly its count by 1.
pub proof fn lemma_counts_push(toks: Seq<Seq<char>>, t: Seq<char>)
    ensures
        counts_of_tokens(toks.push(t)) == counts_of_tokens(toks).insert(
            t,
            count_or_zero(counts_of_tokens(toks), t) + 1,
        ),
{
    assert(toks.push(t).drop_last() =~= toks);
    assert forall|u: Seq<char>| true implies occ(toks.push(t), u) == occ(toks, u) + (if u == t {
        1int
    } else {
        0int
    }) by {
        assert(toks.push(t).last() == t);
    }
    assert forall|u: Seq<char>| true implies occ(toks, u) >= 0 by {
        lemma_occ_nonneg(toks, u);
    }
    lemma_counts_value(toks, t);
    assert(counts_of_tokens(toks.push(t)) =~= counts_of_tokens(toks).insert(
        t,
        count_or_zero(counts_of_tokens(toks), t) + 1,
    ));
}

/// Occurrence counts add up over concatenation.
pub proof fn lemma_occ_concat(x: Seq<Seq<char>>, y: Seq<Seq<char>>, t: Seq<char>)
    ensures
        occ(x + y, t) == occ(x, t) + occ(y, t),
    decreases y.len(),
{
    if y.len() == 0 {
        assert(x + y =~= x);
    } else {
        assert((x + y).drop_last() =~= x + y.drop_last());
        assert((x + y).last() == y.last());
        lemma_occ_concat(x, y.drop_last(), t);
    }
}

/// The count map of a concatenation is the merge of the two count maps.
pub proof fn lemma_counts_concat(x: Seq<Seq<char>>, y: Seq<Seq<char>>)
    ensures
        counts_of_tokens(x + y) == merge_map(counts_of_tokens(x), counts_of_tokens(y)),
{
    assert forall|u: Seq<char>| true implies occ(x + y, u) == occ(x, u) + occ(y, u) && occ(x, u)
        >= 0 && occ(y, u) >= 0 by {
        lemma_occ_concat(x, y, u);
        lemma_occ_nonneg(x, u);
        lemma_occ_nonneg(y, u);
    }
    assert(counts_of_tokens(x + y) =~= merge_map(counts_of_tokens(x), counts_of_tokens(y)));
}

/// All tokens of a corpus, record by record, in order.
pub open spec fn corpus_tokens(rs: Seq<Seq<char>>) -> Seq<Seq<char>>
    decreases rs.len(),
{
    if rs.len() == 0 {
        Seq::empty()
    } else {
        corpus_tokens(rs.drop_last()) + tokens_of(rs.last())
    }
}

/// The global count map of a corpus: every token that occurs in some record
/// maps to its total occurrence count over all records.
pub open spec fn corpus_map(rs: Seq<Seq<char>>) -> Map<Seq<char>, int> {
    counts_of_tokens(corpus_tokens(rs))
}

/// The total number of token occurrences in a corpus.
pub open spec fn corpus_total(rs: Seq<Seq<char>>) -> int {
    corpus_tokens(rs).len() as int
}

pub proof fn lemma_corpus_tokens_push(rs: Seq<Seq<char>>, r: Seq<char>)
    ensures
        corpus_tokens(rs.push(r)) == corpus_tokens(rs) + tokens_of(r),
        corpus_total(rs.push(r)) == corpus_total(rs) + tokens_of(r).len(),
{
    assert(rs.push(r).drop_last() =~= rs);
    assert(rs.push(r).last() == r);
}

pub proof fn lemma_corpus_tokens_concat(rs1: Seq<Seq<char>>, rs2: Seq<Seq<char>>)
    ensures
        corpus_tokens(rs1 + rs2) == corpus_tokens(rs1) + corpus_tokens(rs2),
    decreases rs2.len(),
{
    if rs2.len() == 0 {
        assert(rs1 + rs2 =~= rs1);
        assert(corpus_tokens(rs1) + corpus_tokens(rs2) =~= corpus_tokens(rs1));
    } else {
        assert((rs1 + rs2).drop_last() =~= rs1 + rs2.drop_last());
        assert((rs1 + rs2).last() == rs2.last());
        lemma_corpus_tokens_concat(rs1, rs2.drop_last());
        assert(corpus_tokens(rs1) + corpus_tokens(rs2.drop_last()) + tokens_of(rs2.last())
            =~= corpus_tokens(rs1) + (corpus_tokens(rs2.drop_last()) + tokens_of(rs2.last())));
    }
}

/// Law: however a corpus is split in two, merging the aggregates of the two
/// parts yields the aggregate of the whole corpus.
pub proof fn lemma_merge_partition(rs1: Seq<Seq<char>>, rs2: Seq<Seq<char>>)
    ensures
        corpus_map(rs1 + rs2) == merge_map(corpus_map(rs1), corpus_map(rs2)),
        corpus_total(rs1 + rs2) == corpus_total(rs1) + corpus_total(rs2),
{
    lemma_corpus_tokens_concat(rs1, rs2);
    lemma_counts_concat(corpus_tokens(rs1), corpus_tokens(rs2));
}

/// A corpus chunked into groups of records, flattened back to one corpus.
pub open spec fn concat_chunks(cs: Seq<Seq<Seq<char>>>) -> Seq<Seq<char>>
    decreases cs.len(),
{
    if cs.len() == 0 {
        Seq::empty()
    } else {
        concat_chunks(cs.drop_last()) + cs.last()
    }
}

/// The left-to-right merge of the aggregates of each chunk.
pub open spec fn merge_chunk_maps(cs: Seq<Seq<Seq<char>>>) -> Map<Seq<char>, int>
    decreases cs.len(),
{
    if cs.len() == 0 {
        Map::empty()
    } else {
        merge_map(merge_chunk_maps(cs.drop_last()), corpus_map(cs.last()))
    }
}

/// Law: partition a corpus into chunks however you like, aggregate each
/// chunk on its own and merge the partial maps: the result is the aggregate
/// of the whole corpus. Together with the associativity, commutativity and
/// identity of the merge, any association and any order of the partial
/// merges yields this same map.
pub proof fn lemma_chunked_aggregation(cs: Seq<Seq<Seq<char>>>)
    ensures
        merge_chunk_maps(cs) == corpus_map(concat_chunks(cs)),
    decreases cs.len(),
{
    if cs.len() == 0 {
        lemma_corpus_empty();
    } else {
        lemma_chunked_aggregation(cs.drop_last());
        lemma_merge_partition(concat_chunks(cs.drop_last()), cs.last());
    }
}

/// The sum over the records of a corpus of one token's per-record count.
pub open spec fn record_occ_sum(rs: Seq<Seq<char>>, t: Seq<char>) -> int
    decreases rs.len(),
{
    if rs.len() == 0 {
        0
    } else {
        record_occ_sum(rs.drop_last(), t) + occ(tokens_of(rs.last()), t)
    }
}

/// Law: for every token, the global count equals the number of its
/// occurrences summed record by record.
pub proof fn lemma_sum_invariant(rs: Seq<Seq<char>>, t: Seq<char>)
    ensures
        count_or_zero(corpus_map(rs), t) == record_occ_sum(rs, t),
    decreases rs.len(),
{
    lemma_counts_value(corpus_tokens(rs), t);
    if rs.len() > 0 {
        lemma_sum_invariant(rs.drop_last(), t);
        lemma_counts_value(corpus_tokens(rs.drop_last()), t);
        lemma_occ_concat(corpus_tokens(rs.drop_last()), tokens_of(rs.last()), t);
    }
}

/// No single record holds more token occurrences than the whole corpus.
pub proof fn lemma_record_le_corpus_total(rs: Seq<Seq<char>>, i: int)
    requires
        0 <= i < rs.len(),
    ensures
        tokens_of(rs[i]).len() <= corpus_total(rs),
    decreases rs.len(),
{
    if i == rs.len() - 1 {
    } else {
        assert(rs.drop_last()[i] == rs[i]);
        lemma_record_le_corpus_total(rs.drop_last(), i);
    }
}

/// A prefix of the corpus never holds more occurrences than the whole.
pub proof fn lemma_corpus_total_take_le(rs: Seq<Seq<char>>, i: int)
    requires
        0 <= i <= rs.len(),
    ensures
        corpus_total(rs.take(i)) <= corpus_total(rs),
    decreases rs.len() - i,
{
    if i == rs.len() {
        assert(rs.take(i) =~= rs);
    } else {
        lemma_corpus_total_take_le(rs, i + 1);
        assert(rs.take(i + 1).drop_last() =~= rs.take(i));
        assert(rs.take(i + 1).last() == rs[i]);
    }
}

/// Turn one record into its local count map: one entry per distinct token,
/// holding the token's occurrence count within this record alone.
pub fn process_tweet(tweet: &str) -> (r: CountMap)
    requires
        tokens_of(tweet@).len() <= i64::MAX,
    ensures
        r.wf(),
        r@ == counts_of_tokens(tokens_of(tweet@)),
        r.total_spec() == tokens_of(tweet@).len(),
{
    let toks = tokenize(tweet);
    let ghost tv = toks.deep_view();
    let mut r = CountMap::new();
    let n = toks.len();
    proof {
        assert(tv.len() == toks@.len());
        assert(tv.take(0) =~= Seq::<Seq<char>>::empty());
        assert(counts_of_tokens(tv.take(0)) =~= Map::<Seq<char>, int>::empty());
    }
    let mut k: usize = 0;
    while k < n
        invariant
            n == toks@.len(),
            tv == toks.deep_view(),
            tv.len() == n,
            tv == tokens_of(tweet@),
            tv.len() <= i64::MAX,
            k <= n,
            r.wf(),
            r@ == counts_of_tokens(tv.take(k as int)),
            r.total_spec() == k,
        decreases n - k,
    {
        proof {
            assert(tv[k as int] == toks@[k as int]@);
        }
        r.add_count(&toks[k], 1);
        proof {
            lemma_counts_push(tv.take(k as int), tv[k as int]);
            assert(tv.take(k as int).push(tv[k as int]) =~= tv.take(k as int + 1));
        }
        k = k + 1;
    }
    proof {
        assert(tv.take(n as int) =~= tv);
    }
    r
}

/// Whether every map of the sequence is well-formed.
pub open spec fn all_wf(parts: Seq<CountMap>) -> bool {
    forall|i: int| 0 <= i < parts.len() ==> (#[trigger] parts[i]).wf()
}

/// The sum of the totals of a sequence of count maps.
pub open spec fn sum_totals(parts: Seq<CountMap>) -> int
    decreases parts.len(),
{
    if parts.len() == 0 {
        0
    } else {
        sum_totals(parts.drop_last()) + parts.last().total_spec()
    }
}

/// The left-to-right merge of a sequence of count maps.
pub open spec fn merge_all(parts: Seq<CountMap>) -> Map<Seq<char>, int>
    decreases parts.len(),
{
    if parts.len() == 0 {
        Map::empty()
    } else {
        merge_map(merge_all(parts.drop_last()), parts.last()@)
    }
}

/// If the maps of the sequence are the local counts of the records of a
/// corpus, merging them all yields the corpus aggregate.
pub proof fn lemma_merge_all_corpus(parts: Seq<CountMap>, rs: Seq<Seq<char>>)
    requires
        parts.len() == rs.len(),
        forall|i: int|
            0 <= i < parts.len() ==> (#[trigger] parts[i])@ == counts_of_tokens(
                tokens_of(rs[i]),
            ) && parts[i].total_spec() == tokens_of(rs[i]).len(),
    ensures
        merge_all(parts) == corpus_map(rs),
        sum_totals(parts) == corpus_total(rs),
    decreases parts.len(),
{
    if parts.len() == 0 {
        assert(corpus_map(rs) =~= Map::<Seq<char>, int>::empty());
    } else {
        assert(forall|i: int|
            0 <= i < parts.drop_last().len() ==> (#[trigger] parts.drop_last()[i]) == parts[i]);
        assert(forall|i: int|
            0 <= i < rs.drop_last().len() ==> (#[trigger] rs.drop_last()[i]) == rs[i]);
        lemma_merge_all_corpus(parts.drop_last(), rs.drop_last());
        lemma_counts_concat(corpus_tokens(rs.drop_last()), tokens_of(rs.last()));
        assert(parts.last()@ == counts_of_tokens(tokens_of(rs[rs.len() - 1])));
    }
}

/// Relies on rayon's `par_iter`, `ParallelIterator::map` and `collect`: the
/// closure is applied to every record independently and the results are
/// collected in the records' order, so element `i` of the result is the
/// local count of record `i`.
#[verifier::external_body]
fn par_local_counts(tweets: &Vec<String>) -> (parts: Vec<CountMap>)
    requires
        forall|i: int|
            0 <= i < tweets.deep_view().len() ==> (#[trigger] tokens_of(
                tweets.deep_view()[i],
            )).len() <= i64::MAX,
    ensures
        parts@.len() == tweets.deep_view().len(),
        forall|i: int|
            0 <= i < parts@.len() ==> (#[trigger] parts@[i]).wf() && parts@[i]@
                == counts_of_tokens(tokens_of(tweets.deep_view()[i])) && parts@[i].total_spec()
                == tokens_of(tweets.deep_view()[i]).len(),
{
    tweets.par_iter().map(|t: &String| process_tweet(t.as_str())).collect()
}

/// Relies on rayon's `ParallelIterator::reduce`: it combines the items with
/// the given operation in their order but in an unspecified association,
/// inserting values of the identity closure as needed. Every such
/// combination equals the left-to-right merge, because the merge is
/// associative with the empty map as identity (`lemma_merge_map_assoc`,
/// `lemma_merge_map_empty`).
#[verifier::external_body]
fn par_merge_counts(parts: Vec<CountMap>) -> (r: CountMap)
    requires
        all_wf(parts@),
        sum_totals(parts@) <= i64::MAX,
    ensures
        r.wf(),
        r@ == merge_all(parts@),
        r.total_spec() == sum_totals(parts@),
{
    parts.into_par_iter().reduce(
        CountMap::new,
        |a: CountMap, b: CountMap| crate::count_map::combine_processed_tweets(&a, &b),
    )
}

/// Aggregate a whole corpus into its global count map, in parallel over the
/// records or by a sequential left fold; both paths produce the same map.
pub fn count_corpus(tweets: &Vec<String>, parallel: bool) -> (r: CountMap)
    requires
        corpus_total(tweets.deep_view()) <= i64::MAX,
    ensures
        r.wf(),
        r@ == corpus_map(tweets.deep_view()),
        r.total_spec() == corpus_total(tweets.deep_view()),
{
    let ghost rsv = tweets.deep_view();
    if parallel {
        proof {
            assert forall|i: int| 0 <= i < rsv.len() implies (#[trigger] tokens_of(
                rsv[i],
            )).len() <= i64::MAX by {
                lemma_record_le_corpus_total(rsv, i);
                assert(corpus_tokens(rsv).len() >= 0);
            }
        }
        let parts = par_local_counts(tweets);
        proof {
            lemma_merge_all_corpus(parts@, rsv);
        }
        par_merge_counts(parts)
    } else {
        let mut r = CountMap::new();
        let n = tweets.len();
        proof {
            assert(rsv.len() == tweets@.len());
            assert(rsv.take(0) =~= Seq::<Seq<char>>::empty());
            assert(corpus_map(rsv.take(0)) =~= Map::<Seq<char>, int>::empty());
        }
        let mut i: usize = 0;
        while i < n
            invariant
                n == tweets@.len(),
                rsv == tweets.deep_view(),
                rsv.len() == n,
                corpus_total(rsv) <= i64::MAX,
                i <= n,
                r.wf(),
                r@ == corpus_map(rsv.take(i as int)),
                r.total_spec() == corpus_total(rsv.take(i as int)),
            decreases n - i,
        {
            proof {
                assert(rsv[i as int] == tweets@[i as int]@);
                lemma_record_le_corpus_total(rsv, i as int);
                assert(corpus_tokens(rsv).len() >= 0);
            }
            let local = process_tweet(tweets[i].as_str());
            proof {
                lemma_corpus_total_take_le(rsv, i as int + 1);
                assert(rsv.take(i as int).push(rsv[i as int]) =~= rsv.take(i as int + 1));
                lemma_corpus_tokens_push(rsv.take(i as int), rsv[i as int]);
            }
            r = crate::count_map::combine_processed_tweets(&r, &local);
            proof {
                lemma_counts_concat(corpus_tokens(rsv.take(i as int)), tokens_of(rsv[i as int]));
            }
            i = i + 1;
        }
        proof {
            assert(rsv.take(n as int) =~= rsv);
        }
        r
    }
}

/// Law: an empty corpus aggregates to the empty count map.
pub proof fn lemma_corpus_empty()
    ensures
        corpus_map(Seq::<Seq<char>>::empty()) == Map::<Seq<char>, int>::empty(),
        corpus_total(Seq::<Seq<char>>::empty()) == 0,
{
    assert(corpus_map(Seq::<Seq<char>>::empty()) =~= Map::<Seq<char>, int>::empty());
}

/// Count a whole corpus and rank every token: the result lists every
/// distinct token with its total occurrence count, ordered by count with
/// lexicographic tie-break. The parallel and the sequential path return the
/// same list.
pub fn process_tweets(tweets: &Vec<String>, parallel: bool) -> (r: Vec<WordAndCount>)
    requires
        corpus_total(tweets.deep_view()) <= i64::MAX,
    ensures
        is_ranking_of(entry_views(r@), corpus_map(tweets.deep_view())),
{
    let counts = count_corpus(tweets, parallel);
    processed_tweets_to_priority_queue(&counts)
}

/// Law: for one corpus there is only one ranked result, so the sequential
/// and the parallel path agree: any two ranked lists whose contracts tie
/// them to the same corpus are equal.
pub proof fn lemma_seq_par_equivalence(
    rs: Seq<Seq<char>>,
    r1: Seq<(Seq<char>, int)>,
    r2: Seq<(Seq<char>, int)>,
)
    requires
        is_ranking_of(r1, corpus_map(rs)),
        is_ranking_of(r2, corpus_map(rs)),
    ensures
        r1 == r2,
{
    crate::ranking::lemma_ranking_unique(corpus_map(rs), r1, r2);
}

/// Whether the whole corpus holds few enough token occurrences for the
/// counts to fit the count type; the guard for `count_corpus`.
pub fn corpus_fits(tweets: &Vec<String>) -> (b: bool)
    ensures
        b == (corpus_total(tweets.deep_view()) <= i64::MAX),
{
    let ghost rsv = tweets.deep_view();
    let n = tweets.len();
    let mut acc: u128 = 0;
    proof {
        assert(rsv.len() == tweets@.len());
        assert(rsv.take(0) =~= Seq::<Seq<char>>::empty());
    }
    let mut i: usize = 0;
    while i < n
        invariant
            n == tweets@.len(),
            rsv == tweets.deep_view(),
            rsv.len() == n,
            i <= n,
            acc as int == corpus_total(rsv.take(i as int)),
            acc <= i64::MAX as u128,
        decreases n - i,
    {
        proof {
            assert(rsv[i as int] == tweets@[i as int]@);
        }
        let toks = tokenize(tweets[i].as_str());
        let ghost tv = toks.deep_view();
        proof {
            assert(tv.len() == toks@.len());
            assert(rsv.take(i as int).push(rsv[i as int]) =~= rsv.take(i as int + 1));
            lemma_corpus_tokens_push(rsv.take(i as int), rsv[i as int]);
        }
        let count = toks.len();
        let next: u128 = acc + (count as u128);
        if next > (i64::MAX as u128) {
            proof {
                lemma_corpus_total_take_le(rsv, i as int + 1);
            }
            return false;
        }
        acc = next;
        i = i + 1;
    }
    proof {
        assert(rsv.take(n as int) =~= rsv);
    }
    true
}

} // verus!
