//! Deterministic ranking of counted tokens: entries are ordered by count,
//! highest first, with ties broken by lexicographic order on the token, so
//! that the ranked output of a count map is unique and reproducible.

use vstd::prelude::*;

use crate::count_map::CountMap;
use crate::count_map::WordAndCount;
use crate::count_map::distinct_keys;
use crate::count_map::lemma_map_of_contains;
use crate::count_map::lemma_map_of_index;

verus! {

/// Strict lexicographic order on tokens, by Unicode scalar value.
pub open spec fn lex_less(a: Seq<char>, b: Seq<char>) -> bool
    decreases a.len(),
{
    if b.len() == 0 {
        false
    } else if a.len() == 0 {
        true
    } else if (a[0] as u32) < (b[0] as u32) {
        true
    } else if a[0] == b[0] {
        lex_less(a.drop_first(), b.drop_first())
    } else {
        false
    }
}

/// Tokens that neither order places first are equal.
pub proof fn lemma_lex_connex(a: Seq<char>, b: Seq<char>)
    requires
        !lex_less(a, b),
        !lex_less(b, a),
    ensures
        a == b,
    decreases a.len(),
{
    if b.len() == 0 {
        assert(a.len() == 0);
        assert(a =~= b);
    } else {
        assert(a.len() > 0);
        assert(!((a[0] as u32) < (b[0] as u32)));
        assert(!((b[0] as u32) < (a[0] as u32)));
        vstd::utf8::char_u32_cast(a[0], a[0] as u32);
        vstd::utf8::char_u32_cast(b[0], a[0] as u32);
        assert(a[0] == b[0]);
        lemma_lex_connex(a.drop_first(), b.drop_first());
        assert(a.len() == b.len());
        assert forall|x: int| 0 <= x < a.len() implies a[x] == b[x] by {
            if x > 0 {
                assert(a[x] == a.drop_first()[x - 1]);
                assert(b[x] == b.drop_first()[x - 1]);
            }
        }
        assert(a =~= b);
    }
}

/// The lexicographic order is asymmetric.
pub proof fn lemma_lex_asym(a: Seq<char>, b: Seq<char>)
    requires
        lex_less(a, b),
    ensures
        !lex_less(b, a),
    decreases a.len(),
{
    if b.len() > 0 && a.len() > 0 && a[0] == b[0] {
        lemma_lex_asym(a.drop_first(), b.drop_first());
    }
}

/// The lexicographic order is transitive.
pub proof fn lemma_lex_trans(a: Seq<char>, b: Seq<char>, c: Seq<char>)
    requires
        lex_less(a, b),
        lex_less(b, c),
    ensures
        lex_less(a, c),
    decreases a.len(),
{
    if a.len() == 0 {
        assert(c.len() > 0);
    } else {
        assert(b.len() > 0 && c.len() > 0);
        if a[0] == b[0] && b[0] == c[0] {
            lemma_lex_trans(a.drop_first(), b.drop_first(), c.drop_first());
        }
    }
}

/// Whether entry `e` ranks strictly before entry `f`: a higher count wins,
/// and equal counts fall back to lexicographic order on the token.
pub open spec fn ranks_before(e: (Seq<char>, int), f: (Seq<char>, int)) -> bool {
    e.1 > f.1 || (e.1 == f.1 && lex_less(e.0, f.0))
}

/// The ranking order is transitive.
pub proof fn lemma_ranks_trans(e: (Seq<char>, int), f: (Seq<char>, int), g: (Seq<char>, int))
    requires
        ranks_before(e, f),
        ranks_before(f, g),
    ensures
        ranks_before(e, g),
{
    if e.1 == f.1 && f.1 == g.1 {
        lemma_lex_trans(e.0, f.0, g.0);
    }
}

/// Of two entries with different tokens, one ranks before the other.
pub proof fn lemma_ranks_total(e: (Seq<char>, int), f: (Seq<char>, int))
    requires
        e.0 != f.0,
    ensures
        ranks_before(e, f) || ranks_before(f, e),
{
    if e.1 == f.1 && !lex_less(e.0, f.0) && !lex_less(f.0, e.0) {
        lemma_lex_connex(e.0, f.0);
    }
}

/// No two entries rank before each other.
pub proof fn lemma_ranks_asym(e: (Seq<char>, int), f: (Seq<char>, int))
    requires
        ranks_before(e, f),
    ensures
        !ranks_before(f, e),
{
    if e.1 == f.1 {
        lemma_lex_asym(e.0, f.0);
    }
}

/// Whether `a` orders lexicographically before `b`.
pub fn lex_less_exec(a: &str, b: &str) -> (r: bool)
    ensures
        r == lex_less(a@, b@),
{
    let na = a.unicode_len();
    let nb = b.unicode_len();
    let mut i: usize = 0;
    proof {
        assert(a@.skip(0) =~= a@);
        assert(b@.skip(0) =~= b@);
    }
    while i < na && i < nb
        invariant
            na == a@.len(),
            nb == b@.len(),
            i <= na,
            i <= nb,
            lex_less(a@, b@) == lex_less(a@.skip(i as int), b@.skip(i as int)),
        decreases na - i,
    {
        let ca = a.get_char(i);
        let cb = b.get_char(i);
        if (ca as u32) < (cb as u32) {
            proof {
                assert(a@.skip(i as int)[0] == ca);
                assert(b@.skip(i as int)[0] == cb);
                assert(lex_less(a@.skip(i as int), b@.skip(i as int)));
            }
            return true;
        } else if (cb as u32) < (ca as u32) {
            proof {
                assert(a@.skip(i as int)[0] == ca);
                assert(b@.skip(i as int)[0] == cb);
                assert(ca != cb);
                assert(!lex_less(a@.skip(i as int), b@.skip(i as int)));
            }
            return false;
        }
        proof {
            vstd::utf8::char_u32_cast(ca, ca as u32);
            vstd::utf8::char_u32_cast(cb, ca as u32);
            assert(ca == cb);
            assert(a@.skip(i as int)[0] == ca);
            assert(b@.skip(i as int)[0] == cb);
            assert(a@.skip(i as int).drop_first() =~= a@.skip(i as int + 1));
            assert(b@.skip(i as int).drop_first() =~= b@.skip(i as int + 1));
        }
        i = i + 1;
    }
    proof {
        assert(a@.skip(i as int).len() == na - i);
        assert(b@.skip(i as int).len() == nb - i);
    }
    i < nb
}

/// Whether `e` ranks strictly before `f`.
pub fn ranks_before_exec(e: &WordAndCount, f: &WordAndCount) -> (b: bool)
    ensures
        b == ranks_before(e@, f@),
{
    let ec = e.get_count();
    let fc = f.get_count();
    if ec > fc {
        true
    } else if ec == fc {
        lex_less_exec(e.get_word().as_str(), f.get_word().as_str())
    } else {
        false
    }
}

/// The token-and-count views of a sequence of entries.
pub open spec fn entry_views(s: Seq<WordAndCount>) -> Seq<(Seq<char>, int)> {
    s.map_values(|e: WordAndCount| e@)
}

/// Whether the entries are strictly ordered by rank, highest first.
pub open spec fn sorted_ranking(s: Seq<(Seq<char>, int)>) -> bool {
    forall|i: int, j: int|
        #![trigger s[i], s[j]]
        0 <= i < j < s.len() ==> ranks_before(s[i], s[j])
}

/// Whether `s` is the ranking of the count map `m`: every entry of `s` is an
/// entry of `m`, every token of `m` appears, no token repeats, and the
/// entries are strictly ordered by rank. For each map there is exactly one
/// such sequence.
pub open spec fn is_ranking_of(s: Seq<(Seq<char>, int)>, m: Map<Seq<char>, int>) -> bool {
    &&& sorted_ranking(s)
    &&& distinct_keys(s)
    &&& forall|i: int| 0 <= i < s.len() ==> m.contains_key((#[trigger] s[i]).0) && s[i].1 == m[s[i].0]
    &&& forall|t: Seq<char>|
        m.contains_key(t) ==> exists|i: int| 0 <= i < s.len() && (#[trigger] s[i]).0 == t
}

/// Law: a count map has at most one ranking, so any two runs that rank the
/// same counts agree, however the counts were aggregated.
pub proof fn lemma_ranking_unique(
    m: Map<Seq<char>, int>,
    s1: Seq<(Seq<char>, int)>,
    s2: Seq<(Seq<char>, int)>,
)
    requires
        is_ranking_of(s1, m),
        is_ranking_of(s2, m),
    ensures
        s1 == s2,
    decreases s1.len(),
{
    if s1.len() == 0 {
        if s2.len() > 0 {
            assert(m.contains_key(s2[0].0));
            assert(exists|i: int| 0 <= i < s1.len() && s1[i].0 == s2[0].0);
        }
        assert(s1 =~= s2);
    } else {
        assert(m.contains_key(s1[0].0));
        let j = choose|j: int| 0 <= j < s2.len() && s2[j].0 == s1[0].0;
        assert(s2[j].1 == m[s1[0].0] == s1[0].1);
        assert(s2[j] == s1[0]);
        let i = choose|i: int| 0 <= i < s1.len() && s1[i].0 == s2[0].0;
        assert(s1[i] == s2[0]);
        if i > 0 && j > 0 {
            assert(ranks_before(s1[0], s1[i]));
            assert(ranks_before(s2[0], s2[j]));
            lemma_ranks_asym(s1[0], s2[0]);
            assert(false);
        }
        assert(s1[0] == s2[0]);
        let k = s1[0].0;
        let m2 = m.remove(k);
        let t1 = s1.drop_first();
        let t2 = s2.drop_first();
        assert forall|p: int| 0 <= p < t1.len() implies m2.contains_key((#[trigger] t1[p]).0)
            && t1[p].1 == m2[t1[p].0] by {
            assert(t1[p] == s1[p + 1]);
            assert(s1[p + 1].0 != k);
        }
        assert forall|t: Seq<char>| m2.contains_key(t) implies exists|p: int|
            0 <= p < t1.len() && (#[trigger] t1[p]).0 == t by {
            assert(m.contains_key(t));
            let q = choose|q: int| 0 <= q < s1.len() && s1[q].0 == t;
            assert(q != 0);
            assert(t1[q - 1].0 == t);
        }
        assert forall|p: int| 0 <= p < t2.len() implies m2.contains_key((#[trigger] t2[p]).0)
            && t2[p].1 == m2[t2[p].0] by {
            assert(t2[p] == s2[p + 1]);
            assert(s2[p + 1].0 != k);
        }
        assert forall|t: Seq<char>| m2.contains_key(t) implies exists|p: int|
            0 <= p < t2.len() && (#[trigger] t2[p]).0 == t by {
            assert(m.contains_key(t));
            let q = choose|q: int| 0 <= q < s2.len() && s2[q].0 == t;
            assert(q != 0);
            assert(t2[q - 1].0 == t);
        }
        assert(sorted_ranking(t1)) by {
            assert forall|p: int, q: int|
                #![trigger t1[p], t1[q]]
                0 <= p < q < t1.len() implies ranks_before(t1[p], t1[q]) by {
                assert(t1[p] == s1[p + 1]);
                assert(t1[q] == s1[q + 1]);
            }
        }
        assert(sorted_ranking(t2)) by {
            assert forall|p: int, q: int|
                #![trigger t2[p], t2[q]]
                0 <= p < q < t2.len() implies ranks_before(t2[p], t2[q]) by {
                assert(t2[p] == s2[p + 1]);
                assert(t2[q] == s2[q + 1]);
            }
        }
        assert(distinct_keys(t1)) by {
            assert forall|p: int, q: int|
                0 <= p < t1.len() && 0 <= q < t1.len() && p != q implies t1[p].0 != t1[q].0 by {
                assert(t1[p] == s1[p + 1]);
                assert(t1[q] == s1[q + 1]);
            }
        }
        assert(distinct_keys(t2)) by {
            assert forall|p: int, q: int|
                0 <= p < t2.len() && 0 <= q < t2.len() && p != q implies t2[p].0 != t2[q].0 by {
                assert(t2[p] == s2[p + 1]);
                assert(t2[q] == s2[q + 1]);
            }
        }
        lemma_ranking_unique(m2, t1, t2);
        assert(s1.len() == s2.len());
        assert forall|x: int| 0 <= x < s1.len() implies s1[x] == s2[x] by {
            if x > 0 {
                assert(s1[x] == t1[x - 1]);
                assert(s2[x] == t2[x - 1]);
            }
        }
        assert(s1 =~= s2);
    }
}

/// Turn a finished count map into its ranked entry list, ordered by count,
/// highest first, ties broken lexicographically.
#[verifier::rlimit(50)]
pub fn processed_tweets_to_priority_queue(pt: &CountMap) -> (r: Vec<WordAndCount>)
    requires
        pt.wf(),
    ensures
        is_ranking_of(entry_views(r@), pt@),
{
    let entries = pt.entry_list();
    let n = entries.len();
    let ghost sv = pt.entries_view();
    let mut r: Vec<WordAndCount> = Vec::new();
    proof {
        assert(entry_views(r@) =~= Seq::<(Seq<char>, int)>::empty());
    }
    let mut i: usize = 0;
    while i < n
        invariant
            pt.wf(),
            sv == pt.entries_view(),
            n == sv.len(),
            entries@.map_values(|e: WordAndCount| e@) == sv,
            i <= n,
            r@.len() == i,
            sorted_ranking(entry_views(r@)),
            distinct_keys(entry_views(r@)),
            forall|q: int|
                #![trigger sv[q]]
                0 <= q < i ==> exists|p: int|
                    0 <= p < r@.len() && entry_views(r@)[p] == sv[q],
            forall|p: int|
                0 <= p < r@.len() ==> exists|q: int|
                    0 <= q < i && (#[trigger] entry_views(r@)[p]) == sv[q],
        decreases n - i,
    {
        let ghost rv = entry_views(r@);
        let e = entries[i].clone();
        proof {
            assert(e@ == sv[i as int]);
            assert forall|p: int| 0 <= p < rv.len() implies (#[trigger] rv[p]).0 != e@.0 by {
                let q = choose|q: int| 0 <= q < i && rv[p] == sv[q];
                assert(sv[q].0 != sv[i as int].0);
            }
        }
        let m = r.len();
        let mut p: usize = 0;
        while p < m
            invariant
                m == r@.len(),
                p <= m,
                rv == entry_views(r@),
                e@ == sv[i as int],
                forall|q: int| 0 <= q < rv.len() ==> (#[trigger] rv[q]).0 != e@.0,
                forall|q: int| 0 <= q < p ==> ranks_before(#[trigger] rv[q], e@),
            ensures
                m == r@.len(),
                p <= m,
                rv == entry_views(r@),
                forall|q: int| 0 <= q < p ==> ranks_before(#[trigger] rv[q], e@),
                p < m ==> ranks_before(e@, rv[p as int]),
            decreases m - p,
        {
            if ranks_before_exec(&e, &r[p]) {
                proof {
                    assert(rv[p as int] == r@[p as int]@);
                }
                break ;
            }
            proof {
                assert(rv[p as int] == r@[p as int]@);
                lemma_ranks_total(e@, rv[p as int]);
            }
            p = p + 1;
        }
        let ghost ev = e@;
        r.insert(p, e);
        proof {
            let nv = entry_views(r@);
            assert(nv =~= rv.insert(p as int, ev));
            assert forall|x: int, y: int|
                #![trigger nv[x], nv[y]]
                0 <= x < y < nv.len() implies ranks_before(nv[x], nv[y]) by {
                if y < p {
                    assert(nv[x] == rv[x] && nv[y] == rv[y]);
                } else if x < p && y == p {
                    assert(nv[x] == rv[x] && nv[y] == ev);
                } else if x < p && y > p {
                    assert(nv[x] == rv[x] && nv[y] == rv[y - 1]);
                } else if x == p {
                    assert(nv[x] == ev && nv[y] == rv[y - 1]);
                    if y - 1 > p {
                        lemma_ranks_trans(ev, rv[p as int], rv[y - 1]);
                    }
                } else {
                    assert(nv[x] == rv[x - 1] && nv[y] == rv[y - 1]);
                }
            }
            assert forall|x: int, y: int|
                0 <= x < nv.len() && 0 <= y < nv.len() && x != y implies nv[x].0 != nv[y].0 by {
                let x0 = if x < p { x } else if x == p { -1int } else { x - 1 };
                let y0 = if y < p { y } else if y == p { -1int } else { y - 1 };
                if x0 >= 0 {
                    assert(nv[x] == rv[x0]);
                }
                if y0 >= 0 {
                    assert(nv[y] == rv[y0]);
                }
            }
            assert forall|q: int| #![trigger sv[q]] 0 <= q < i + 1 implies exists|p2: int|
                0 <= p2 < r@.len() && entry_views(r@)[p2] == sv[q] by {
                if q < i {
                    let p2 = choose|p2: int| 0 <= p2 < rv.len() && rv[p2] == sv[q];
                    if p2 < p {
                        assert(nv[p2] == sv[q]);
                    } else {
                        assert(nv[p2 + 1] == sv[q]);
                    }
                } else {
                    assert(nv[p as int] == sv[q]);
                }
            }
            assert forall|p2: int| 0 <= p2 < r@.len() implies exists|q: int|
                0 <= q < i + 1 && (#[trigger] entry_views(r@)[p2]) == sv[q] by {
                if p2 < p {
                    assert(nv[p2] == rv[p2]);
                } else if p2 == p {
                    assert(nv[p2] == sv[i as int]);
                } else {
                    assert(nv[p2] == rv[p2 - 1]);
                }
            }
        }
        i = i + 1;
    }
    proof {
        let rv = entry_views(r@);
        assert forall|p: int| 0 <= p < rv.len() implies pt@.contains_key((#[trigger] rv[p]).0)
            && rv[p].1 == pt@[rv[p].0] by {
            let q = choose|q: int| 0 <= q < n && rv[p] == sv[q];
            lemma_map_of_index(sv, q);
        }
        assert forall|t: Seq<char>| pt@.contains_key(t) implies exists|p: int|
            0 <= p < rv.len() && (#[trigger] rv[p]).0 == t by {
            lemma_map_of_contains(sv, t);
            let q = choose|q: int| 0 <= q < sv.len() && sv[q].0 == t;
            let p = choose|p: int| 0 <= p < rv.len() && rv[p] == sv[q];
            assert(rv[p].0 == t);
        }
    }
    r
}

} // verus!
