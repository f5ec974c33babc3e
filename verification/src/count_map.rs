//! The token-to-count mapping shared by the local (per-record) and global
//! (corpus-wide) counters: an association list of distinct tokens with
//! positive occurrence counts, together with the running sum of all counts.

use vstd::prelude::*;

verus! {

/// A token together with the number of occurrences counted for it.
pub struct WordAndCount {
    pub word: String,
    pub count: i64,
}

impl View for WordAndCount {
    type V = (Seq<char>, int);

    open spec fn view(&self) -> (Seq<char>, int) {
        (self.word@, self.count as int)
    }
}

impl Clone for WordAndCount {
    fn clone(&self) -> (r: Self)
        ensures
            r == *self,
    {
        WordAndCount { word: self.word.clone(), count: self.count }
    }
}

impl WordAndCount {
    pub fn new(word: &str, count_in: i64) -> (r: WordAndCount)
        ensures
            r@ == (word@, count_in as int),
    {
        WordAndCount { word: String::from_str(word), count: count_in }
    }

    pub fn get_word(&self) -> (w: &String)
        ensures
            w@ == self@.0,
    {
        &self.word
    }

    pub fn get_count(&self) -> (c: i64)
        ensures
            c as int == self@.1,
    {
        self.count
    }

    pub fn increment_count(&mut self)
        requires
            old(self)@.1 < i64::MAX,
        ensures
            final(self)@ == (old(self)@.0, old(self)@.1 + 1),
    {
        self.count = self.count + 1;
    }
}

/// Entry sequences whose tokens never repeat.
pub open spec fn distinct_keys(s: Seq<(Seq<char>, int)>) -> bool {
    forall|i: int, j: int|
        0 <= i < s.len() && 0 <= j < s.len() && i != j ==> s[i].0 != s[j].0
}

/// Entry sequences whose counts are all at least 1.
pub open spec fn positive_counts(s: Seq<(Seq<char>, int)>) -> bool {
    forall|i: int| 0 <= i < s.len() ==> (#[trigger] s[i]).1 >= 1
}

/// The mapping denoted by an entry sequence: later entries shadow earlier
/// ones, though a well-formed `CountMap` never holds a token twice.
pub open spec fn map_of(s: Seq<(Seq<char>, int)>) -> Map<Seq<char>, int>
    decreases s.len(),
{
    if s.len() == 0 {
        Map::empty()
    } else {
        map_of(s.drop_last()).insert(s.last().0, s.last().1)
    }
}

/// The sum of all counts of an entry sequence.
pub open spec fn sum_counts(s: Seq<(Seq<char>, int)>) -> int
    decreases s.len(),
{
    if s.len() == 0 {
        0
    } else {
        sum_counts(s.drop_last()) + s.last().1
    }
}

/// The count a mapping assigns to a token, with absent tokens counting 0.
pub open spec fn count_or_zero(m: Map<Seq<char>, int>, t: Seq<char>) -> int {
    if m.contains_key(t) {
        m[t]
    } else {
        0
    }
}

/// The merge of two token-count mappings: the key set is the union of the
/// two key sets, and every token's count is the sum of its counts in both.
pub open spec fn merge_map(a: Map<Seq<char>, int>, b: Map<Seq<char>, int>) -> Map<
    Seq<char>,
    int,
> {
    Map::new(
        |t: Seq<char>| a.contains_key(t) || b.contains_key(t),
        |t: Seq<char>| count_or_zero(a, t) + count_or_zero(b, t),
    )
}

pub proof fn lemma_map_of_contains(s: Seq<(Seq<char>, int)>, k: Seq<char>)
    ensures
        map_of(s).contains_key(k) <==> exists|i: int| 0 <= i < s.len() && s[i].0 == k,
    decreases s.len(),
{
    if s.len() > 0 {
        lemma_map_of_contains(s.drop_last(), k);
        if s.last().0 == k {
            assert(s[s.len() - 1].0 == k);
        } else if map_of(s).contains_key(k) {
            let i = choose|i: int| 0 <= i < s.drop_last().len() && s.drop_last()[i].0 == k;
            assert(s[i].0 == k);
        } else if exists|i: int| 0 <= i < s.len() && s[i].0 == k {
            let i = choose|i: int| 0 <= i < s.len() && s[i].0 == k;
            assert(s.drop_last()[i].0 == k);
        }
    }
}

pub proof fn lemma_map_of_index(s: Seq<(Seq<char>, int)>, i: int)
    requires
        distinct_keys(s),
        0 <= i < s.len(),
    ensures
        map_of(s).contains_key(s[i].0),
        map_of(s)[s[i].0] == s[i].1,
    decreases s.len(),
{
    if i == s.len() - 1 {
    } else {
        assert(distinct_keys(s.drop_last()));
        assert(s.drop_last()[i] == s[i]);
        lemma_map_of_index(s.drop_last(), i);
        assert(s.last().0 != s[i].0);
    }
}

pub proof fn lemma_map_of_push(s: Seq<(Seq<char>, int)>, e: (Seq<char>, int))
    ensures
        map_of(s.push(e)) == map_of(s).insert(e.0, e.1),
        sum_counts(s.push(e)) == sum_counts(s) + e.1,
{
    assert(s.push(e).drop_last() =~= s);
    assert(s.push(e).last() == e);
}

pub proof fn lemma_map_of_update(s: Seq<(Seq<char>, int)>, i: int, c: int)
    requires
        distinct_keys(s),
        0 <= i < s.len(),
    ensures
        map_of(s.update(i, (s[i].0, c))) == map_of(s).insert(s[i].0, c),
        sum_counts(s.update(i, (s[i].0, c))) == sum_counts(s) - s[i].1 + c,
    decreases s.len(),
{
    let k = s[i].0;
    let t = s.update(i, (k, c));
    if i == s.len() - 1 {
        assert(t.drop_last() =~= s.drop_last());
        assert(t.last() == (k, c));
        assert(map_of(t) == map_of(s.drop_last()).insert(k, c));
        assert(map_of(s).insert(k, c) =~= map_of(s.drop_last()).insert(k, s[i].1).insert(k, c));
        assert(map_of(s.drop_last()).insert(k, s[i].1).insert(k, c) =~= map_of(
            s.drop_last(),
        ).insert(k, c));
    } else {
        assert(distinct_keys(s.drop_last()));
        assert(s.drop_last()[i] == s[i]);
        lemma_map_of_update(s.drop_last(), i, c);
        assert(t.drop_last() =~= s.drop_last().update(i, (k, c)));
        assert(t.last() == s.last());
        assert(s.last().0 != k);
        assert(map_of(t) == map_of(s.drop_last()).insert(k, c).insert(s.last().0, s.last().1));
        assert(map_of(s.drop_last()).insert(k, c).insert(s.last().0, s.last().1) =~= map_of(
            s.drop_last(),
        ).insert(s.last().0, s.last().1).insert(k, c));
    }
}

/// Every single count is bounded by the sum of all counts.
pub proof fn lemma_count_le_sum(s: Seq<(Seq<char>, int)>, i: int)
    requires
        positive_counts(s),
        0 <= i < s.len(),
    ensures
        s[i].1 <= sum_counts(s),
    decreases s.len(),
{
    if i == s.len() - 1 {
        lemma_sum_counts_nonneg(s.drop_last());
    } else {
        assert(positive_counts(s.drop_last()));
        assert(s.drop_last()[i] == s[i]);
        lemma_count_le_sum(s.drop_last(), i);
    }
}

pub proof fn lemma_sum_counts_nonneg(s: Seq<(Seq<char>, int)>)
    requires
        positive_counts(s),
    ensures
        sum_counts(s) >= 0,
    decreases s.len(),
{
    if s.len() > 0 {
        assert(positive_counts(s.drop_last()));
        lemma_sum_counts_nonneg(s.drop_last());
        assert(s[s.len() - 1].1 >= 1);
    }
}

/// The sum over a prefix never exceeds the sum over the whole sequence.
pub proof fn lemma_sum_take_le(s: Seq<(Seq<char>, int)>, i: int)
    requires
        positive_counts(s),
        0 <= i <= s.len(),
    ensures
        sum_counts(s.take(i)) <= sum_counts(s),
    decreases s.len() - i,
{
    if i == s.len() {
        assert(s.take(i) =~= s);
    } else {
        lemma_sum_take_le(s, i + 1);
        assert(s.take(i + 1).drop_last() =~= s.take(i));
        assert(s.take(i + 1).last() == s[i]);
        assert(s[i].1 >= 1);
    }
}

/// Merging token-count mappings is commutative.
pub proof fn lemma_merge_map_comm(a: Map<Seq<char>, int>, b: Map<Seq<char>, int>)
    ensures
        merge_map(a, b) == merge_map(b, a),
{
    assert(merge_map(a, b) =~= merge_map(b, a));
}

/// Merging token-count mappings is associative.
pub proof fn lemma_merge_map_assoc(
    a: Map<Seq<char>, int>,
    b: Map<Seq<char>, int>,
    c: Map<Seq<char>, int>,
)
    ensures
        merge_map(a, merge_map(b, c)) == merge_map(merge_map(a, b), c),
{
    assert(merge_map(a, merge_map(b, c)) =~= merge_map(merge_map(a, b), c));
}

/// The empty mapping is the identity of the merge.
pub proof fn lemma_merge_map_empty(a: Map<Seq<char>, int>)
    ensures
        merge_map(a, Map::<Seq<char>, int>::empty()) == a,
        merge_map(Map::<Seq<char>, int>::empty(), a) == a,
{
    assert(merge_map(a, Map::<Seq<char>, int>::empty()) =~= a);
    assert(merge_map(Map::<Seq<char>, int>::empty(), a) =~= a);
}

/// Inserting a token that `b` does not hold yet commutes with merging.
proof fn lemma_merge_insert(a: Map<Seq<char>, int>, b: Map<Seq<char>, int>, k: Seq<char>, c: int)
    requires
        !b.contains_key(k),
    ensures
        merge_map(a, b.insert(k, c)) == merge_map(a, b).insert(k, count_or_zero(a, k) + c),
{
    assert(merge_map(a, b.insert(k, c)) =~= merge_map(a, b).insert(k, count_or_zero(a, k) + c));
}

/// A mapping from tokens to positive occurrence counts.
pub struct CountMap {
    pub entries: Vec<WordAndCount>,
    pub total: i64,
}

impl View for CountMap {
    type V = Map<Seq<char>, int>;

    open spec fn view(&self) -> Map<Seq<char>, int> {
        map_of(self.entries_view())
    }
}

impl CountMap {
    /// The raw entry sequence, token view paired with count.
    pub open spec fn entries_view(&self) -> Seq<(Seq<char>, int)> {
        self.entries@.map_values(|e: WordAndCount| e@)
    }

    /// The sum of all counts held in the map.
    pub open spec fn total_spec(&self) -> int {
        self.total as int
    }

    /// Well-formedness: tokens are distinct, counts are at least 1, and
    /// `total` is the sum of all counts.
    pub open spec fn wf(&self) -> bool {
        &&& distinct_keys(self.entries_view())
        &&& positive_counts(self.entries_view())
        &&& self.total as int == sum_counts(self.entries_view())
    }

    pub fn new() -> (r: CountMap)
        ensures
            r.wf(),
            r@ == Map::<Seq<char>, int>::empty(),
            r.total_spec() == 0,
            r.entries_view() == Seq::<(Seq<char>, int)>::empty(),
    {
        let r = CountMap { entries: Vec::new(), total: 0 };
        proof {
            assert(r.entries_view() =~= Seq::<(Seq<char>, int)>::empty());
        }
        r
    }

    /// The entries as ranked-entry values, in the map's internal order.
    pub fn entry_list(&self) -> (v: &Vec<WordAndCount>)
        ensures
            v@.map_values(|e: WordAndCount| e@) == self.entries_view(),
    {
        &self.entries
    }

    /// How many distinct tokens the map holds.
    pub fn num_tokens(&self) -> (n: usize)
        ensures
            n == self.entries_view().len(),
    {
        self.entries.len()
    }

    /// The sum of all counts, for sizing checks.
    pub fn get_total(&self) -> (t: i64)
        ensures
            t as int == self.total_spec(),
    {
        self.total
    }

    fn find_index(&self, w: &String) -> (o: Option<usize>)
        ensures
            match o {
                Some(i) => i < self.entries_view().len() && self.entries_view()[i as int].0
                    == w@,
                None => forall|i: int|
                    0 <= i < self.entries_view().len() ==> self.entries_view()[i].0 != w@,
            },
    {
        let n = self.entries.len();
        let mut idx: usize = 0;
        while idx < n
            invariant
                n == self.entries_view().len(),
                idx <= n,
                forall|i: int| 0 <= i < idx ==> self.entries_view()[i].0 != w@,
            decreases n - idx,
        {
            if self.entries[idx].word == *w {
                return Some(idx);
            }
            idx = idx + 1;
        }
        None
    }

    /// The count recorded for a token, or `None` if the token is absent.
    pub fn get(&self, w: &String) -> (o: Option<i64>)
        requires
            self.wf(),
        ensures
            match o {
                Some(c) => self@.contains_key(w@) && c as int == self@[w@],
                None => !self@.contains_key(w@),
            },
    {
        proof {
            lemma_map_of_contains(self.entries_view(), w@);
        }
        match self.find_index(w) {
            Some(i) => {
                proof {
                    lemma_map_of_index(self.entries_view(), i as int);
                }
                Some(self.entries[i].count)
            },
            None => None,
        }
    }

    /// Add `c` occurrences of token `w`: the token's count grows by `c`
    /// (starting from 0 if the token was absent) and every other token keeps
    /// its count.
    pub fn add_count(&mut self, w: &String, c: i64)
        requires
            old(self).wf(),
            c >= 1,
            old(self).total_spec() + c <= i64::MAX,
        ensures
            final(self).wf(),
            final(self)@ == old(self)@.insert(w@, count_or_zero(old(self)@, w@) + c),
            final(self).total_spec() == old(self).total_spec() + c,
    {
        proof {
            lemma_map_of_contains(self.entries_view(), w@);
        }
        match self.find_index(w) {
            Some(i) => {
                proof {
                    lemma_map_of_index(self.entries_view(), i as int);
                    lemma_count_le_sum(self.entries_view(), i as int);
                    lemma_sum_counts_nonneg(self.entries_view());
                }
                let ghost s = self.entries_view();
                let word = self.entries[i].word.clone();
                let old_count = self.entries[i].count;
                self.entries[i] = WordAndCount { word, count: old_count + c };
                self.total = self.total + c;
                proof {
                    assert(self.entries_view() =~= s.update(i as int, (w@, s[i as int].1 + c)));
                    lemma_map_of_update(s, i as int, s[i as int].1 + c);
                }
            },
            None => {
                let ghost s = self.entries_view();
                self.entries.push(WordAndCount { word: w.clone(), count: c });
                self.total = self.total + c;
                proof {
                    assert(self.entries_view() =~= s.push((w@, c as int)));
                    lemma_map_of_push(s, (w@, c as int));
                }
            },
        }
    }
}

/// Merge two count maps: the result holds every token of either input, with
/// the sum of its two counts; this is the reducer of the aggregation fold.
pub fn combine_processed_tweets(a: &CountMap, b: &CountMap) -> (r: CountMap)
    requires
        a.wf(),
        b.wf(),
        a.total_spec() + b.total_spec() <= i64::MAX,
    ensures
        r.wf(),
        r@ == merge_map(a@, b@),
        r.total_spec() == a.total_spec() + b.total_spec(),
{
    let mut r = CountMap::new();
    let a_entries = a.entry_list();
    let na = a_entries.len();
    let mut i: usize = 0;
    proof {
        assert(a.entries_view().take(0) =~= Seq::<(Seq<char>, int)>::empty());
    }
    while i < na
        invariant
            na == a.entries_view().len(),
            i <= na,
            a.wf(),
            b.wf(),
            a.total_spec() + b.total_spec() <= i64::MAX,
            a_entries@.map_values(|e: WordAndCount| e@) == a.entries_view(),
            r.wf(),
            r@ == map_of(a.entries_view().take(i as int)),
            r.total_spec() == sum_counts(a.entries_view().take(i as int)),
        decreases na - i,
    {
        let ghost s = a.entries_view();
        let ghost pre = s.take(i as int);
        proof {
            lemma_sum_take_le(s, i as int + 1);
            assert(s.take(i as int + 1).drop_last() =~= pre);
            assert(s.take(i as int + 1).last() == s[i as int]);
            assert(s[i as int].1 >= 1);
            lemma_sum_counts_nonneg(b.entries_view());
            lemma_map_of_contains(pre, s[i as int].0);
        }
        let e = &a_entries[i];
        r.add_count(&e.word, e.count);
        proof {
            assert(!map_of(pre).contains_key(s[i as int].0));
            lemma_map_of_push(pre, s[i as int]);
            assert(pre.push(s[i as int]) =~= s.take(i as int + 1));
        }
        i = i + 1;
    }
    proof {
        assert(a.entries_view().take(na as int) =~= a.entries_view());
    }
    let b_entries = b.entry_list();
    let nb = b_entries.len();
    let mut j: usize = 0;
    proof {
        assert(b.entries_view().take(0) =~= Seq::<(Seq<char>, int)>::empty());
        lemma_merge_map_empty(a@);
    }
    while j < nb
        invariant
            nb == b.entries_view().len(),
            j <= nb,
            a.wf(),
            b.wf(),
            a.total_spec() + b.total_spec() <= i64::MAX,
            b_entries@.map_values(|e: WordAndCount| e@) == b.entries_view(),
            r.wf(),
            r@ == merge_map(a@, map_of(b.entries_view().take(j as int))),
            r.total_spec() == a.total_spec() + sum_counts(b.entries_view().take(j as int)),
        decreases nb - j,
    {
        let ghost s = b.entries_view();
        let ghost pre = s.take(j as int);
        proof {
            lemma_sum_take_le(s, j as int + 1);
            assert(s.take(j as int + 1).drop_last() =~= pre);
            assert(s.take(j as int + 1).last() == s[j as int]);
            assert(s[j as int].1 >= 1);
            lemma_map_of_contains(pre, s[j as int].0);
            assert(!map_of(pre).contains_key(s[j as int].0));
            lemma_map_of_index(s, j as int);
            lemma_map_of_contains(s, s[j as int].0);
        }
        let e = &b_entries[j];
        r.add_count(&e.word, e.count);
        proof {
            lemma_merge_insert(a@, map_of(pre), s[j as int].0, s[j as int].1);
            lemma_map_of_push(pre, s[j as int]);
            assert(pre.push(s[j as int]) =~= s.take(j as int + 1));
            assert(count_or_zero(merge_map(a@, map_of(pre)), s[j as int].0) == count_or_zero(
                a@,
                s[j as int].0,
            ));
        }
        j = j + 1;
    }
    proof {
        assert(b.entries_view().take(nb as int) =~= b.entries_view());
    }
    r
}

} // verus!
