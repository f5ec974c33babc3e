//! Rendering of the ranked results as plain text: one line per entry,
//! token and count separated by one space, entries separated by `\r\n`, and
//! the word list and the tag list under their own headings.

use vstd::prelude::*;

use crate::count_map::WordAndCount;
use crate::ranking::entry_views;
use crate::top_k::get_top_words;
use crate::top_k::lemma_category_entries_membership;
use crate::top_k::top_k_spec;
use crate::top_k::NUMBER_TO_SHOW;
use crate::top_k::TAG_MARKER;

verus! {

/// The character for one decimal digit.
pub open spec fn digit_char(d: int) -> char {
    if d == 0 {
        '0'
    } else if d == 1 {
        '1'
    } else if d == 2 {
        '2'
    } else if d == 3 {
        '3'
    } else if d == 4 {
        '4'
    } else if d == 5 {
        '5'
    } else if d == 6 {
        '6'
    } else if d == 7 {
        '7'
    } else if d == 8 {
        '8'
    } else {
        '9'
    }
}

/// The decimal representation of a non-negative number, most significant
/// digit first, without leading zeros (`0` itself renders as "0").
pub open spec fn dec_rep(n: int) -> Seq<char>
    decreases n,
{
    if n < 0 {
        Seq::empty()
    } else if n < 10 {
        seq![digit_char(n)]
    } else {
        dec_rep(n / 10).push(digit_char(n % 10))
    }
}

/// One rendered line: the token, one space, the count in decimal.
pub open spec fn entry_line(e: (Seq<char>, int)) -> Seq<char> {
    e.0 + seq![' '] + dec_rep(e.1)
}

/// The rendered lines of all entries, separated by `\r\n`.
pub open spec fn lines_joined(s: Seq<(Seq<char>, int)>) -> Seq<char>
    decreases s.len(),
{
    if s.len() == 0 {
        Seq::empty()
    } else if s.len() == 1 {
        entry_line(s[0])
    } else {
        lines_joined(s.drop_last()) + seq!['\r', '\n'] + entry_line(s.last())
    }
}

/// The whole report: the word list and the tag list under their headings.
pub open spec fn report_text(w: Seq<(Seq<char>, int)>, h: Seq<(Seq<char>, int)>) -> Seq<char> {
    "Top words:\r\n"@ + lines_joined(w) + "\r\n\r\nTop hashtags:\r\n"@ + lines_joined(h)
}

/// The single-character string for one decimal digit.
fn digit_str(d: i64) -> (r: &'static str)
    requires
        0 <= d <= 9,
    ensures
        r@ == seq![digit_char(d as int)],
{
    proof {
        reveal_strlit("0");
        reveal_strlit("1");
        reveal_strlit("2");
        reveal_strlit("3");
        reveal_strlit("4");
        reveal_strlit("5");
        reveal_strlit("6");
        reveal_strlit("7");
        reveal_strlit("8");
        reveal_strlit("9");
        assert("0"@ =~= seq!['0']);
        assert("1"@ =~= seq!['1']);
        assert("2"@ =~= seq!['2']);
        assert("3"@ =~= seq!['3']);
        assert("4"@ =~= seq!['4']);
        assert("5"@ =~= seq!['5']);
        assert("6"@ =~= seq!['6']);
        assert("7"@ =~= seq!['7']);
        assert("8"@ =~= seq!['8']);
        assert("9"@ =~= seq!['9']);
    }
    if d == 0 {
        "0"
    } else if d == 1 {
        "1"
    } else if d == 2 {
        "2"
    } else if d == 3 {
        "3"
    } else if d == 4 {
        "4"
    } else if d == 5 {
        "5"
    } else if d == 6 {
        "6"
    } else if d == 7 {
        "7"
    } else if d == 8 {
        "8"
    } else {
        "9"
    }
}

/// Render a non-negative count in decimal.
pub fn count_to_string(n: i64) -> (r: String)
    requires
        n >= 0,
    ensures
        r@ == dec_rep(n as int),
    decreases n,
{
    if n < 10 {
        String::from_str(digit_str(n))
    } else {
        let rest = count_to_string(n / 10);
        let r = rest.concat(digit_str(n % 10));
        proof {
            assert(dec_rep((n / 10) as int).push(digit_char((n % 10) as int)) =~= dec_rep(
                (n / 10) as int,
            ) + seq![digit_char((n % 10) as int)]);
        }
        r
    }
}

/// Render the ranked entries, one `token count` line per entry, lines
/// separated by `\r\n`; no entries render as the empty string.
pub fn top_word_list_to_string(list: &Vec<WordAndCount>) -> (r: String)
    requires
        forall|i: int| 0 <= i < list@.len() ==> (#[trigger] entry_views(list@)[i]).1 >= 0,
    ensures
        r@ == lines_joined(entry_views(list@)),
{
    let ghost sv = entry_views(list@);
    let n = list.len();
    let mut out = String::new();
    proof {
        assert(sv.len() == list@.len());
        assert(sv.take(0) =~= Seq::<(Seq<char>, int)>::empty());
    }
    let mut i: usize = 0;
    while i < n
        invariant
            sv == entry_views(list@),
            n == list@.len(),
            sv.len() == n,
            forall|q: int| 0 <= q < n ==> (#[trigger] sv[q]).1 >= 0,
            i <= n,
            out@ == lines_joined(sv.take(i as int)),
        decreases n - i,
    {
        proof {
            assert(sv.take(i as int + 1).drop_last() =~= sv.take(i as int));
            assert(sv.take(i as int + 1).last() == sv[i as int]);
            assert(sv[i as int] == list@[i as int]@);
        }
        if i > 0 {
            out.append("\r\n");
            proof {
                reveal_strlit("\r\n");
                assert("\r\n"@ =~= seq!['\r', '\n']);
            }
        }
        let e = &list[i];
        out.append(e.get_word().as_str());
        out.append(" ");
        proof {
            reveal_strlit(" ");
            assert(" "@ =~= seq![' ']);
        }
        let cs = count_to_string(e.get_count());
        out.append(cs.as_str());
        proof {
            assert(out@ =~= lines_joined(sv.take(i as int + 1)));
        }
        i = i + 1;
    }
    proof {
        assert(sv.take(n as int) =~= sv);
    }
    out
}

/// Render the two ranked lists under their headings, words first.
pub fn get_top_words_text(top_words: Vec<WordAndCount>, top_hashtags: Vec<WordAndCount>) -> (r:
    String)
    requires
        forall|i: int|
            0 <= i < top_words@.len() ==> (#[trigger] entry_views(top_words@)[i]).1 >= 0,
        forall|i: int|
            0 <= i < top_hashtags@.len() ==> (#[trigger] entry_views(top_hashtags@)[i]).1 >= 0,
    ensures
        r@ == report_text(entry_views(top_words@), entry_views(top_hashtags@)),
{
    let mut out = String::from_str("Top words:\r\n");
    let words_text = top_word_list_to_string(&top_words);
    out.append(words_text.as_str());
    out.append("\r\n\r\nTop hashtags:\r\n");
    let tags_text = top_word_list_to_string(&top_hashtags);
    out.append(tags_text.as_str());
    out
}

/// Select the ten highest-ranked words and tags from the ranked list and
/// render the report text.
pub fn get_top_words_text_from_counts(counts: &Vec<WordAndCount>) -> (r: String)
    requires
        forall|i: int| 0 <= i < counts@.len() ==> (#[trigger] entry_views(counts@)[i]).1 >= 0,
    ensures
        r@ == report_text(
            top_k_spec(entry_views(counts@), NUMBER_TO_SHOW as int, TAG_MARKER, false),
            top_k_spec(entry_views(counts@), NUMBER_TO_SHOW as int, TAG_MARKER, true),
        ),
{
    let top_hashtags = get_top_words(counts, true);
    let top_words = get_top_words(counts, false);
    proof {
        let sv = entry_views(counts@);
        lemma_category_entries_membership(sv, TAG_MARKER, true);
        lemma_category_entries_membership(sv, TAG_MARKER, false);
        assert(sv.len() == counts@.len());
        assert forall|i: int| 0 <= i < top_words@.len() implies (#[trigger] entry_views(
            top_words@,
        )[i]).1 >= 0 by {
            let tw = top_k_spec(sv, NUMBER_TO_SHOW as int, TAG_MARKER, false);
            let ce = crate::top_k::category_entries(sv, TAG_MARKER, false);
            assert(entry_views(top_words@).len() == top_words@.len());
            assert(entry_views(top_words@)[i] == tw[i]);
            if (NUMBER_TO_SHOW as int) < ce.len() {
                assert(tw[i] == ce[i]);
            } else {
                assert(tw == ce);
            }
            let j = choose|j: int| 0 <= j < sv.len() && sv[j] == ce[i];
            assert(entry_views(counts@)[j].1 >= 0);
        }
        assert forall|i: int| 0 <= i < top_hashtags@.len() implies (#[trigger] entry_views(
            top_hashtags@,
        )[i]).1 >= 0 by {
            let th = top_k_spec(sv, NUMBER_TO_SHOW as int, TAG_MARKER, true);
            let ce = crate::top_k::category_entries(sv, TAG_MARKER, true);
            assert(entry_views(top_hashtags@).len() == top_hashtags@.len());
            assert(entry_views(top_hashtags@)[i] == th[i]);
            if (NUMBER_TO_SHOW as int) < ce.len() {
                assert(th[i] == ce[i]);
            } else {
                assert(th == ce);
            }
            let j = choose|j: int| 0 <= j < sv.len() && sv[j] == ce[i];
            assert(entry_views(counts@)[j].1 >= 0);
        }
    }
    get_top_words_text(top_words, top_hashtags)
}

} // verus!
