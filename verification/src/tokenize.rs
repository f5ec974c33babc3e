//! Tokenization of one text record: a token is a maximal run of
//! non-whitespace characters, and records are split on any whitespace run.

use vstd::prelude::*;

verus! {

/// The characters that split records into tokens: the Unicode `White_Space`
/// set, which is what `char::is_whitespace` recognizes.
pub open spec fn is_ws(c: char) -> bool {
    ||| c == ' '
    ||| c == '\t'
    ||| c == '\n'
    ||| c == '\u{b}'
    ||| c == '\u{c}'
    ||| c == '\r'
    ||| c == '\u{85}'
    ||| c == '\u{a0}'
    ||| c == '\u{1680}'
    ||| c == '\u{2000}'
    ||| c == '\u{2001}'
    ||| c == '\u{2002}'
    ||| c == '\u{2003}'
    ||| c == '\u{2004}'
    ||| c == '\u{2005}'
    ||| c == '\u{2006}'
    ||| c == '\u{2007}'
    ||| c == '\u{2008}'
    ||| c == '\u{2009}'
    ||| c == '\u{200a}'
    ||| c == '\u{2028}'
    ||| c == '\u{2029}'
    ||| c == '\u{202f}'
    ||| c == '\u{205f}'
    ||| c == '\u{3000}'
}

/// Whether `c` splits tokens.
pub fn is_whitespace_char(c: char) -> (b: bool)
    ensures
        b == is_ws(c),
{
    c == ' ' || c == '\t' || c == '\n' || c == '\u{b}' || c == '\u{c}' || c == '\r'
        || c == '\u{85}' || c == '\u{a0}' || c == '\u{1680}' || c == '\u{2000}' || c == '\u{2001}'
        || c == '\u{2002}' || c == '\u{2003}' || c == '\u{2004}' || c == '\u{2005}' || c
        == '\u{2006}' || c == '\u{2007}' || c == '\u{2008}' || c == '\u{2009}' || c == '\u{200a}'
        || c == '\u{2028}' || c == '\u{2029}' || c == '\u{202f}' || c == '\u{205f}' || c
        == '\u{3000}'
}

/// The index just past the token that starts at `i`: the first position at or
/// after `i` that holds whitespace, or the record's end.
pub open spec fn token_end(s: Seq<char>, i: int) -> int
    decreases s.len() - i,
{
    if i < 0 || i >= s.len() {
        s.len() as int
    } else if is_ws(s[i]) {
        i
    } else {
        token_end(s, i + 1)
    }
}

pub proof fn lemma_token_end(s: Seq<char>, i: int)
    requires
        0 <= i <= s.len(),
    ensures
        i <= token_end(s, i) <= s.len(),
        token_end(s, i) < s.len() ==> is_ws(s[token_end(s, i)]),
        forall|j: int| i <= j < token_end(s, i) ==> !is_ws(#[trigger] s[j]),
    decreases s.len() - i,
{
    if i < s.len() && !is_ws(s[i]) {
        lemma_token_end(s, i + 1);
    }
}

/// The tokens of `s` from position `i` on.
pub open spec fn tokens_from(s: Seq<char>, i: int) -> Seq<Seq<char>>
    decreases s.len() - i,
    via tokens_from_dec
{
    if i < 0 || i >= s.len() {
        Seq::empty()
    } else if is_ws(s[i]) {
        tokens_from(s, i + 1)
    } else {
        seq![s.subrange(i, token_end(s, i))] + tokens_from(s, token_end(s, i))
    }
}

#[via_fn]
proof fn tokens_from_dec(s: Seq<char>, i: int) {
    if 0 <= i && i < s.len() && !is_ws(s[i]) {
        lemma_token_end(s, i);
        assert(token_end(s, i) == token_end(s, i + 1));
        lemma_token_end(s, i + 1);
    }
}

/// The tokens of one record, in order of appearance.
pub open spec fn tokens_of(s: Seq<char>) -> Seq<Seq<char>> {
    tokens_from(s, 0)
}

/// Every token is non-empty and starts with a non-whitespace character.
pub proof fn lemma_tokens_from_wf(s: Seq<char>, i: int)
    requires
        0 <= i <= s.len(),
    ensures
        forall|j: int|
            0 <= j < tokens_from(s, i).len() ==> (#[trigger] tokens_from(s, i)[j]).len() >= 1
                && !is_ws(tokens_from(s, i)[j][0]),
    decreases s.len() - i,
{
    if i < s.len() {
        if is_ws(s[i]) {
            lemma_tokens_from_wf(s, i + 1);
            assert(tokens_from(s, i) == tokens_from(s, i + 1));
        } else {
            lemma_token_end(s, i);
            assert(token_end(s, i) == token_end(s, i + 1));
            lemma_token_end(s, i + 1);
            let te = token_end(s, i);
            lemma_tokens_from_wf(s, te);
            assert(tokens_from(s, i) == seq![s.subrange(i, te)] + tokens_from(s, te));
            let first = s.subrange(i, te);
            assert(first.len() >= 1);
            assert(first[0] == s[i]);
            assert forall|j: int| 0 <= j < tokens_from(s, i).len() implies (#[trigger] tokens_from(
                s,
                i,
            )[j]).len() >= 1 && !is_ws(tokens_from(s, i)[j][0]) by {
                if j == 0 {
                    assert(tokens_from(s, i)[0] == first);
                } else {
                    assert(tokens_from(s, i)[j] == tokens_from(s, te)[j - 1]);
                }
            }
        }
    }
}

/// Split one record into its tokens.
pub fn tokenize(s: &str) -> (toks: Vec<String>)
    ensures
        toks.deep_view() == tokens_of(s@),
{
    let n = s.unicode_len();
    let mut toks: Vec<String> = Vec::new();
    let mut i: usize = 0;
    proof {
        assert(toks.deep_view() + tokens_from(s@, 0) =~= tokens_from(s@, 0));
    }
    while i < n
        invariant
            n == s@.len(),
            i <= n,
            tokens_of(s@) == toks.deep_view() + tokens_from(s@, i as int),
        decreases n - i,
    {
        let c = s.get_char(i);
        if is_whitespace_char(c) {
            proof {
                assert(tokens_from(s@, i as int) == tokens_from(s@, i as int + 1));
            }
            i = i + 1;
        } else {
            let mut j = i + 1;
            while j < n
                invariant
                    n == s@.len(),
                    i < j <= n,
                    token_end(s@, i as int) == token_end(s@, j as int),
                ensures
                    n == s@.len(),
                    i < j <= n,
                    token_end(s@, i as int) == j as int,
                decreases n - j,
            {
                let cj = s.get_char(j);
                if is_whitespace_char(cj) {
                    proof {
                        assert(token_end(s@, j as int) == j as int);
                    }
                    break ;
                }
                proof {
                    assert(token_end(s@, j as int) == token_end(s@, j as int + 1));
                }
                j = j + 1;
            }
            let token_str = s.substring_char(i, j);
            let token = String::from_str(token_str);
            let ghost before = toks.deep_view();
            toks.push(token);
            proof {
                assert(toks.deep_view() =~= before.push(s@.subrange(i as int, j as int)));
                assert(tokens_from(s@, i as int) == seq![s@.subrange(i as int, j as int)]
                    + tokens_from(s@, j as int));
                assert(toks.deep_view() + tokens_from(s@, j as int) =~= before + tokens_from(
                    s@,
                    i as int,
                ));
            }
            i = j;
        }
    }
    proof {
        assert(tokens_from(s@, n as int) =~= Seq::<Seq<char>>::empty());
        assert(toks.deep_view() + tokens_from(s@, n as int) =~= toks.deep_view());
    }
    toks
}

} // verus!
