//! Splits raw text into lower-cased word tokens.
//!
//! A token is a maximal run of alphanumeric characters (Unicode letters and
//! digits) of the lower-cased input; every other character separates tokens.
//! Tokens keep their left-to-right order and duplicates are retained, since
//! term frequency matters downstream.

use vstd::prelude::*;
use vstd::string::StrSliceExecFns;

verus! {

/// What `char::is_alphanumeric` returns for a character.
pub uninterp spec fn is_alnum(c: char) -> bool;

/// What `str::to_lowercase` returns, as a function of the characters alone.
pub uninterp spec fn lower_of(s: Seq<char>) -> Seq<char>;

/// Relies on `char::is_alphanumeric`: true exactly for Unicode letters and
/// digits, a function of the character alone.
#[verifier::external_body]
fn char_is_alphanumeric(c: char) -> (r: bool)
    ensures
        r == is_alnum(c),
{
    c.is_alphanumeric()
}

/// Relies on `str::to_lowercase`: the result depends on the characters
/// alone, and an empty string stays empty.
#[verifier::external_body]
fn to_lowercase(s: &str) -> (r: String)
    ensures
        r@ == lower_of(s@),
        s@.len() == 0 ==> r@.len() == 0,
{
    s.to_lowercase()
}

/// The tokens of `s` when the characters of `cur` have already been read as
/// the (possibly empty) beginning of a token.
pub open spec fn spec_tokenize_acc(s: Seq<char>, cur: Seq<char>) -> Seq<Seq<char>>
    decreases s.len(),
{
    if s.len() == 0 {
        if cur.len() == 0 {
            Seq::empty()
        } else {
            seq![cur]
        }
    } else if is_alnum(s[0]) {
        spec_tokenize_acc(s.drop_first(), cur.push(s[0]))
    } else if cur.len() == 0 {
        spec_tokenize_acc(s.drop_first(), Seq::empty())
    } else {
        seq![cur] + spec_tokenize_acc(s.drop_first(), Seq::empty())
    }
}

/// The maximal runs of alphanumeric characters of `s`, in order.
pub open spec fn spec_tokenize(s: Seq<char>) -> Seq<Seq<char>> {
    spec_tokenize_acc(s, Seq::empty())
}

/// The tokens of a raw text: the alphanumeric runs of its lower-cased form.
pub open spec fn tokens_of(text: Seq<char>) -> Seq<Seq<char>> {
    spec_tokenize(lower_of(text))
}

/// The views of a list of owned strings.
pub open spec fn views_of(v: Seq<String>) -> Seq<Seq<char>> {
    v.map_values(|s: String| s@)
}

/// Lower-cases `text` and splits it into maximal alphanumeric runs; empty
/// fragments are dropped and token order follows the input.
pub fn tokenize(text: &str) -> (r: Vec<String>)
    ensures
        views_of(r@) == tokens_of(text@),
        text@.len() == 0 ==> r@.len() == 0,
{
    let lowered: String = to_lowercase(text);
    let s: &str = lowered.as_str();
    let ghost l: Seq<char> = s@;
    let n: usize = s.unicode_len();
    let mut toks: Vec<String> = Vec::new();
    let mut i: usize = 0;
    let mut start: usize = 0;
    proof {
        assert(l.skip(0) =~= l);
        assert(l.subrange(0, 0) =~= Seq::<char>::empty());
        assert(views_of(toks@) + spec_tokenize_acc(l, Seq::empty())
            =~= spec_tokenize_acc(l, Seq::empty()));
    }
    while i < n
        invariant
            start <= i <= n == l.len(),
            l == lower_of(text@),
            s@ == l,
            views_of(toks@) + spec_tokenize_acc(l.skip(i as int), l.subrange(start as int, i as int))
                == spec_tokenize(l),
        decreases n - i,
    {
        let c = s.get_char(i);
        proof {
            assert(l.skip(i as int).len() == n - i);
            assert(l.skip(i as int)[0] == c);
            assert(l.skip(i as int).drop_first() =~= l.skip(i + 1));
        }
        if char_is_alphanumeric(c) {
            proof {
                assert(l.subrange(start as int, i as int).push(c)
                    =~= l.subrange(start as int, i + 1));
            }
            i = i + 1;
        } else {
            if i > start {
                let tok: String = s.substring_char(start, i).to_owned();
                proof {
                    assert(views_of(toks@.push(tok))
                        =~= views_of(toks@).push(l.subrange(start as int, i as int)));
                    assert(views_of(toks@).push(l.subrange(start as int, i as int))
                        + spec_tokenize_acc(l.skip(i + 1), Seq::empty())
                        =~= views_of(toks@)
                        + (seq![l.subrange(start as int, i as int)]
                            + spec_tokenize_acc(l.skip(i + 1), Seq::empty())));
                }
                toks.push(tok);
            } else {
                proof {
                    assert(l.subrange(start as int, i as int) =~= Seq::<char>::empty());
                }
            }
            i = i + 1;
            start = i;
            proof {
                assert(l.subrange(start as int, i as int) =~= Seq::<char>::empty());
            }
        }
    }
    if start < n {
        let tok: String = s.substring_char(start, n).to_owned();
        proof {
            assert(l.skip(n as int).len() == 0);
            assert(views_of(toks@.push(tok))
                =~= views_of(toks@) + seq![l.subrange(start as int, n as int)]);
        }
        toks.push(tok);
    } else {
        proof {
            assert(l.skip(n as int).len() == 0);
            assert(l.subrange(start as int, n as int).len() == 0);
            assert(views_of(toks@) + Seq::<Seq<char>>::empty() =~= views_of(toks@));
        }
    }
    toks
}

} // verus!
