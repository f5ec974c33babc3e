//! Top-K retrieval per category: every token is either a tag (it begins
//! with the marker character) or a word, and for either category the
//! selector returns the up-to-K highest-ranked entries of the ranked list.

use vstd::prelude::*;

use crate::count_map::WordAndCount;
use crate::count_map::distinct_keys;
use crate::ranking::entry_views;
use crate::ranking::is_ranking_of;
use crate::ranking::ranks_before;
use crate::ranking::sorted_ranking;

verus! {

/// How many entries per category the standard output stage shows.
pub const NUMBER_TO_SHOW: usize = 10;

/// The default marker character that makes a token a tag.
pub const TAG_MARKER: char = '#';

/// Whether token `t` is a tag: it begins with the marker character.
pub open spec fn is_tag(t: Seq<char>, marker: char) -> bool {
    t.len() > 0 && t[0] == marker
}

/// Whether `t` falls in the requested category: the tags, or the words.
pub open spec fn in_category(t: Seq<char>, marker: char, tag_not_word: bool) -> bool {
    is_tag(t, marker) == tag_not_word
}

/// Whether the token of `w` is a tag.
pub fn is_tag_exec(w: &String, marker: char) -> (b: bool)
    ensures
        b == is_tag(w@, marker),
{
    let s = w.as_str();
    if s.unicode_len() == 0 {
        false
    } else {
        s.get_char(0) == marker
    }
}

/// The entries of the requested category, in their order of appearance.
pub open spec fn category_entries(
    s: Seq<(Seq<char>, int)>,
    marker: char,
    tag_not_word: bool,
) -> Seq<(Seq<char>, int)>
    decreases s.len(),
{
    if s.len() == 0 {
        Seq::empty()
    } else {
        let rest = category_entries(s.drop_last(), marker, tag_not_word);
        if in_category(s.last().0, marker, tag_not_word) {
            rest.push(s.last())
        } else {
            rest
        }
    }
}

/// The first `k` entries, or all of them where fewer exist.
pub open spec fn take_up_to(s: Seq<(Seq<char>, int)>, k: int) -> Seq<(Seq<char>, int)> {
    if 0 <= k < s.len() {
        s.take(k)
    } else {
        s
    }
}

/// What top-K selection returns: the first up-to-`k` entries of the
/// category, in the order of the ranked list.
pub open spec fn top_k_spec(
    s: Seq<(Seq<char>, int)>,
    k: int,
    marker: char,
    tag_not_word: bool,
) -> Seq<(Seq<char>, int)> {
    take_up_to(category_entries(s, marker, tag_not_word), k)
}

/// Every category entry is an entry of `s` and lies in the category, and
/// every entry of `s` that lies in the category is kept.
pub proof fn lemma_category_entries_membership(
    s: Seq<(Seq<char>, int)>,
    marker: char,
    tag_not_word: bool,
)
    ensures
        forall|i: int|
            0 <= i < category_entries(s, marker, tag_not_word).len() ==> in_category(
                (#[trigger] category_entries(s, marker, tag_not_word)[i]).0,
                marker,
                tag_not_word,
            ) && exists|j: int|
                0 <= j < s.len() && s[j] == category_entries(s, marker, tag_not_word)[i],
        forall|j: int|
            #![trigger s[j]]
            0 <= j < s.len() && in_category(s[j].0, marker, tag_not_word) ==> exists|i: int|
                0 <= i < category_entries(s, marker, tag_not_word).len() && category_entries(
                    s,
                    marker,
                    tag_not_word,
                )[i] == s[j],
    decreases s.len(),
{
    if s.len() > 0 {
        let dl = s.drop_last();
        lemma_category_entries_membership(dl, marker, tag_not_word);
        let ce = category_entries(s, marker, tag_not_word);
        let cd = category_entries(dl, marker, tag_not_word);
        assert forall|i: int| 0 <= i < ce.len() implies in_category(
            (#[trigger] ce[i]).0,
            marker,
            tag_not_word,
        ) && exists|j: int| 0 <= j < s.len() && s[j] == ce[i] by {
            if i < cd.len() {
                assert(ce[i] == cd[i]);
                let j = choose|j: int| 0 <= j < dl.len() && dl[j] == cd[i];
                assert(s[j] == ce[i]);
            } else {
                assert(ce[i] == s.last());
                assert(s[s.len() - 1] == ce[i]);
            }
        }
        assert forall|j: int|
            #![trigger s[j]]
            0 <= j < s.len() && in_category(s[j].0, marker, tag_not_word) implies exists|i: int|
            0 <= i < ce.len() && ce[i] == s[j] by {
            if j < s.len() - 1 {
                assert(dl[j] == s[j]);
                let i = choose|i: int| 0 <= i < cd.len() && cd[i] == dl[j];
                assert(ce[i] == s[j]);
            } else {
                assert(ce[ce.len() - 1] == s[j]);
            }
        }
    }
}

/// Selecting a category keeps the ranking order and never repeats a token.
pub proof fn lemma_category_entries_sorted(
    s: Seq<(Seq<char>, int)>,
    marker: char,
    tag_not_word: bool,
)
    requires
        sorted_ranking(s),
        distinct_keys(s),
    ensures
        sorted_ranking(category_entries(s, marker, tag_not_word)),
        distinct_keys(category_entries(s, marker, tag_not_word)),
    decreases s.len(),
{
    if s.len() > 0 {
        let dl = s.drop_last();
        assert(sorted_ranking(dl));
        assert(distinct_keys(dl));
        lemma_category_entries_sorted(dl, marker, tag_not_word);
        lemma_category_entries_membership(dl, marker, tag_not_word);
        let ce = category_entries(s, marker, tag_not_word);
        let cd = category_entries(dl, marker, tag_not_word);
        if in_category(s.last().0, marker, tag_not_word) {
            assert forall|i: int, j: int|
                #![trigger ce[i], ce[j]]
                0 <= i < j < ce.len() implies ranks_before(ce[i], ce[j]) by {
                if j < ce.len() - 1 {
                    assert(ce[i] == cd[i] && ce[j] == cd[j]);
                } else {
                    assert(ce[i] == cd[i] && ce[j] == s.last());
                    let q = choose|q: int| 0 <= q < dl.len() && dl[q] == cd[i];
                    assert(s[q] == cd[i]);
                    assert(ranks_before(s[q], s[s.len() - 1]));
                }
            }
            assert forall|i: int, j: int|
                0 <= i < ce.len() && 0 <= j < ce.len() && i != j implies ce[i].0 != ce[j].0 by {
                if i < ce.len() - 1 && j < ce.len() - 1 {
                    assert(ce[i] == cd[i] && ce[j] == cd[j]);
                } else {
                    let a = if i < j {
                        i
                    } else {
                        j
                    };
                    assert(ce[a] == cd[a]);
                    let q = choose|q: int| 0 <= q < dl.len() && dl[q] == cd[a];
                    assert(s[q] == cd[a]);
                    assert(s[q].0 != s[s.len() - 1].0);
                }
            }
        }
    }
}

/// Category selection splits over concatenation.
pub proof fn lemma_category_entries_concat(
    x: Seq<(Seq<char>, int)>,
    y: Seq<(Seq<char>, int)>,
    marker: char,
    tag_not_word: bool,
)
    ensures
        category_entries(x + y, marker, tag_not_word) == category_entries(x, marker, tag_not_word)
            + category_entries(y, marker, tag_not_word),
    decreases y.len(),
{
    if y.len() == 0 {
        assert(x + y =~= x);
        assert(category_entries(x, marker, tag_not_word) + category_entries(y, marker, tag_not_word)
            =~= category_entries(x, marker, tag_not_word));
    } else {
        assert((x + y).drop_last() =~= x + y.drop_last());
        assert((x + y).last() == y.last());
        lemma_category_entries_concat(x, y.drop_last(), marker, tag_not_word);
        if in_category(y.last().0, marker, tag_not_word) {
            assert((category_entries(x, marker, tag_not_word) + category_entries(
                y.drop_last(),
                marker,
                tag_not_word,
            )).push(y.last()) =~= category_entries(x, marker, tag_not_word) + category_entries(
                y.drop_last(),
                marker,
                tag_not_word,
            ).push(y.last()));
        }
    }
}

/// Select the up-to-`k` highest-ranked entries of one category from the
/// ranked entry list: scan in rank order, keep entries of the category, and
/// stop once `k` are found.
pub fn top_k(ranked: &Vec<WordAndCount>, k: usize, tag_not_word: bool, marker: char) -> (r: Vec<
    WordAndCount,
>)
    ensures
        entry_views(r@) == top_k_spec(entry_views(ranked@), k as int, marker, tag_not_word),
{
    let ghost sv = entry_views(ranked@);
    let n = ranked.len();
    let mut r: Vec<WordAndCount> = Vec::new();
    proof {
        assert(sv.len() == ranked@.len());
        assert(sv.take(0) =~= Seq::<(Seq<char>, int)>::empty());
        assert(entry_views(r@) =~= Seq::<(Seq<char>, int)>::empty());
    }
    let mut i: usize = 0;
    while i < n && r.len() < k
        invariant
            sv == entry_views(ranked@),
            n == ranked@.len(),
            sv.len() == n,
            i <= n,
            r@.len() <= k,
            entry_views(r@) == category_entries(sv.take(i as int), marker, tag_not_word),
        decreases n - i,
    {
        let ghost pre = category_entries(sv.take(i as int), marker, tag_not_word);
        proof {
            assert(sv.take(i as int + 1).drop_last() =~= sv.take(i as int));
            assert(sv.take(i as int + 1).last() == sv[i as int]);
            assert(sv[i as int] == ranked@[i as int]@);
        }
        let e = &ranked[i];
        if is_tag_exec(e.get_word(), marker) == tag_not_word {
            let ghost before = entry_views(r@);
            r.push(e.clone());
            proof {
                assert(entry_views(r@) =~= before.push(sv[i as int]));
            }
        }
        i = i + 1;
    }
    proof {
        let ce = category_entries(sv, marker, tag_not_word);
        let rv = entry_views(r@);
        if i == n {
            assert(sv.take(n as int) =~= sv);
            assert(take_up_to(ce, k as int) == rv);
        } else {
            assert(rv.len() == k);
            assert(sv.take(i as int) + sv.skip(i as int) =~= sv);
            lemma_category_entries_concat(
                sv.take(i as int),
                sv.skip(i as int),
                marker,
                tag_not_word,
            );
            assert(ce == rv + category_entries(sv.skip(i as int), marker, tag_not_word));
            if k < ce.len() {
                assert(ce.take(k as int) =~= rv);
            } else {
                assert(ce =~= rv);
            }
        }
    }
    r
}

/// The ten highest-ranked entries of one category, tags when
/// `tag_not_word` is set and plain words otherwise, under the `#` marker.
pub fn get_top_words(counts_in: &Vec<WordAndCount>, tag_not_word: bool) -> (r: Vec<WordAndCount>)
    ensures
        entry_views(r@) == top_k_spec(
            entry_views(counts_in@),
            NUMBER_TO_SHOW as int,
            TAG_MARKER,
            tag_not_word,
        ),
{
    top_k(counts_in, NUMBER_TO_SHOW, tag_not_word, TAG_MARKER)
}

/// Law: every entry the selection returns counts at least as much as every
/// entry of the same category that it leaves out.
pub proof fn lemma_top_k_monotone(
    s: Seq<(Seq<char>, int)>,
    m: Map<Seq<char>, int>,
    k: int,
    marker: char,
    tag_not_word: bool,
    t: Seq<char>,
)
    requires
        is_ranking_of(s, m),
        k >= 0,
        m.contains_key(t),
        in_category(t, marker, tag_not_word),
        !(exists|i: int|
            0 <= i < top_k_spec(s, k, marker, tag_not_word).len() && (#[trigger] top_k_spec(
                s,
                k,
                marker,
                tag_not_word,
            )[i]).0 == t),
    ensures
        forall|i: int|
            0 <= i < top_k_spec(s, k, marker, tag_not_word).len() ==> (#[trigger] top_k_spec(
                s,
                k,
                marker,
                tag_not_word,
            )[i]).1 >= m[t],
{
    let ce = category_entries(s, marker, tag_not_word);
    let res = top_k_spec(s, k, marker, tag_not_word);
    lemma_category_entries_membership(s, marker, tag_not_word);
    lemma_category_entries_sorted(s, marker, tag_not_word);
    let q = choose|q: int| 0 <= q < s.len() && (#[trigger] s[q]).0 == t;
    assert(s[q].1 == m[t]);
    let p = choose|p: int| 0 <= p < ce.len() && ce[p] == s[q];
    assert forall|i: int| 0 <= i < res.len() implies (#[trigger] res[i]).1 >= m[t] by {
        assert(res[i] == ce[i]);
        if i < p {
            assert(ranks_before(ce[i], ce[p]));
        } else if i == p {
        } else {
            assert(ranks_before(ce[p], ce[i]));
            assert(res.len() > p);
            assert(res[p] == ce[p]);
            assert(res[p].0 == t);
            assert(false);
        }
    }
}

/// Law: every token is a tag or a word and never both, so the two category
/// selections never share a token.
pub proof fn lemma_category_partition(
    s: Seq<(Seq<char>, int)>,
    k: int,
    marker: char,
    t: Seq<char>,
)
    ensures
        in_category(t, marker, true) <==> !in_category(t, marker, false),
        forall|i: int, j: int|
            0 <= i < top_k_spec(s, k, marker, true).len() && 0 <= j < top_k_spec(
                s,
                k,
                marker,
                false,
            ).len() ==> (#[trigger] top_k_spec(s, k, marker, true)[i]).0 != (#[trigger] top_k_spec(
                s,
                k,
                marker,
                false,
            )[j]).0,
{
    lemma_category_entries_membership(s, marker, true);
    lemma_category_entries_membership(s, marker, false);
    let ct = category_entries(s, marker, true);
    let cw = category_entries(s, marker, false);
    assert forall|i: int, j: int|
        0 <= i < top_k_spec(s, k, marker, true).len() && 0 <= j < top_k_spec(
            s,
            k,
            marker,
            false,
        ).len() implies (#[trigger] top_k_spec(s, k, marker, true)[i]).0 != (#[trigger] top_k_spec(
        s,
        k,
        marker,
        false,
    )[j]).0 by {
        assert(top_k_spec(s, k, marker, true)[i] == ct[i]);
        assert(top_k_spec(s, k, marker, false)[j] == cw[j]);
        assert(in_category(ct[i].0, marker, true));
        assert(in_category(cw[j].0, marker, false));
    }
}

/// Law: asking for zero entries returns none.
pub proof fn lemma_top_k_zero(s: Seq<(Seq<char>, int)>, marker: char, tag_not_word: bool)
    ensures
        top_k_spec(s, 0, marker, tag_not_word) == Seq::<(Seq<char>, int)>::empty(),
{
    let ce = category_entries(s, marker, tag_not_word);
    if ce.len() > 0 {
        assert(ce.take(0) =~= Seq::<(Seq<char>, int)>::empty());
    } else {
        assert(ce =~= Seq::<(Seq<char>, int)>::empty());
    }
}

/// Law: where the category holds no more than `k` tokens, all of them are
/// returned.
pub proof fn lemma_top_k_all(
    s: Seq<(Seq<char>, int)>,
    k: int,
    marker: char,
    tag_not_word: bool,
)
    requires
        category_entries(s, marker, tag_not_word).len() <= k,
    ensures
        top_k_spec(s, k, marker, tag_not_word) == category_entries(s, marker, tag_not_word),
{
}

/// Law: the ranking of an empty count map is empty, so an empty corpus
/// yields empty results for both categories.
pub proof fn lemma_ranking_of_empty(s: Seq<(Seq<char>, int)>)
    requires
        is_ranking_of(s, Map::<Seq<char>, int>::empty()),
    ensures
        s == Seq::<(Seq<char>, int)>::empty(),
{
    if s.len() > 0 {
        assert(Map::<Seq<char>, int>::empty().contains_key(s[0].0));
    }
    assert(s =~= Seq::<(Seq<char>, int)>::empty());
}

} // verus!
