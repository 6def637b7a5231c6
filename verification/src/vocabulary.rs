//! Builds, per tier, the ordered set of feature dimensions: every token of
//! every document, minus English stop words, deduplicated and sorted
//! ascending by character (code point) order.
//!
//! The sorted sequence is the canonical dimension order for the tier's
//! feature vectors, so it must be reproducible: it is pinned down as the
//! unique strictly sorted sequence holding exactly the kept tokens.

use vstd::prelude::*;
use vstd::string::StrSliceExecFns;
use crate::loader::Document;
use crate::tokenizer::{tokenize, tokens_of, views_of};

verus! {

/// What `stop_words::get` returns for a language code.
pub uninterp spec fn stop_list(language: Seq<char>) -> Seq<Seq<char>>;

/// Relies on `stop_words::get("en")`: the English stop-word list is a fixed
/// constant of that crate, so the result depends on the language code alone.
#[verifier::external_body]
fn english_stop_words() -> (r: Vec<String>)
    ensures
        views_of(r@) == stop_list("en"@),
{
    stop_words::get("en").iter().map(|w| w.to_string()).collect()
}

/// Strict lexicographic order on character sequences, by code point. This is
/// the order `str` comparison uses, since UTF-8 byte order and code-point
/// order agree.
pub open spec fn lex_lt(a: Seq<char>, b: Seq<char>) -> bool
    decreases a.len(),
{
    if b.len() == 0 {
        false
    } else if a.len() == 0 {
        true
    } else if a[0] < b[0] {
        true
    } else if a[0] == b[0] {
        lex_lt(a.drop_first(), b.drop_first())
    } else {
        false
    }
}

/// Any two distinct sequences are ordered one way or the other.
pub proof fn lemma_lex_total(a: Seq<char>, b: Seq<char>)
    ensures
        a == b || lex_lt(a, b) || lex_lt(b, a),
    decreases a.len(),
{
    if a.len() == 0 && b.len() == 0 {
        assert(a =~= b);
    } else if a.len() > 0 && b.len() > 0 {
        if a[0] == b[0] {
            lemma_lex_total(a.drop_first(), b.drop_first());
            if a.drop_first() == b.drop_first() {
                assert forall|k: int| 0 <= k < a.len() implies a[k] == b[k] by {
                    if k > 0 {
                        assert(a.drop_first()[k - 1] == b.drop_first()[k - 1]);
                    }
                }
                assert(a =~= b);
            }
        }
    }
}

/// The order is irreflexive.
pub proof fn lemma_lex_irrefl(a: Seq<char>)
    ensures
        !lex_lt(a, a),
    decreases a.len(),
{
    if a.len() > 0 {
        lemma_lex_irrefl(a.drop_first());
    }
}

/// The order is transitive.
pub proof fn lemma_lex_trans(a: Seq<char>, b: Seq<char>, c: Seq<char>)
    requires
        lex_lt(a, b),
        lex_lt(b, c),
    ensures
        lex_lt(a, c),
    decreases a.len(),
{
    if a.len() > 0 && b.len() > 0 && c.len() > 0 && a[0] == b[0] && b[0] == c[0] {
        lemma_lex_trans(a.drop_first(), b.drop_first(), c.drop_first());
    }
}

/// A strictly ascending sequence of words: sorted with no duplicates.
pub open spec fn strict_sorted(v: Seq<Seq<char>>) -> bool {
    forall|i: int, j: int| 0 <= i < j < v.len() ==> lex_lt(v[i], v[j])
}

/// Compares two strings in lexicographic (code point) order.
fn str_lt(a: &String, b: &String) -> (r: bool)
    ensures
        r == lex_lt(a@, b@),
{
    let sa: &str = a.as_str();
    let sb: &str = b.as_str();
    let na: usize = sa.unicode_len();
    let nb: usize = sb.unicode_len();
    let mut i: usize = 0;
    proof {
        assert(a@.skip(0) =~= a@);
        assert(b@.skip(0) =~= b@);
    }
    loop
        invariant
            i <= na == a@.len(),
            i <= nb == b@.len(),
            sa@ == a@,
            sb@ == b@,
            lex_lt(a@, b@) == lex_lt(a@.skip(i as int), b@.skip(i as int)),
        decreases na - i,
    {
        proof {
            assert(a@.skip(i as int).len() == na - i);
            assert(b@.skip(i as int).len() == nb - i);
        }
        if i == na {
            return i < nb;
        }
        if i == nb {
            return false;
        }
        let ca = sa.get_char(i);
        let cb = sb.get_char(i);
        proof {
            assert(a@.skip(i as int)[0] == ca);
            assert(b@.skip(i as int)[0] == cb);
            assert(a@.skip(i as int).drop_first() =~= a@.skip(i + 1));
            assert(b@.skip(i as int).drop_first() =~= b@.skip(i + 1));
        }
        if ca < cb {
            return true;
        }
        if ca != cb {
            return false;
        }
        i = i + 1;
    }
}

/// Whether some string of `list` has view `w@`.
fn contains_string(list: &Vec<String>, w: &String) -> (r: bool)
    ensures
        r == views_of(list@).contains(w@),
{
    let n = list.len();
    for i in 0..n
        invariant
            n == list@.len(),
            forall|k: int| 0 <= k < i ==> list@[k]@ != w@,
    {
        if list[i].eq(w) {
            assert(views_of(list@)[i as int] == w@);
            return true;
        }
    }
    proof {
        assert forall|k: int| 0 <= k < views_of(list@).len() implies views_of(list@)[k] != w@ by {
            assert(list@[k]@ != w@);
        }
    }
    false
}

/// Inserts `w` into a strictly sorted vector, keeping it strictly sorted;
/// a word already present is left alone.
fn insert_sorted(v: &mut Vec<String>, w: &String)
    requires
        strict_sorted(views_of(old(v)@)),
    ensures
        strict_sorted(views_of(final(v)@)),
        forall|x: Seq<char>| #[trigger] views_of(final(v)@).contains(x) <==> (views_of(
            old(v)@,
        ).contains(x) || x == w@),
{
    let ghost vs: Seq<Seq<char>> = views_of(v@);
    let n = v.len();
    let mut idx: usize = 0;
    while idx < n && str_lt(&v[idx], w)
        invariant
            n == v@.len(),
            vs == views_of(v@),
            idx <= n,
            forall|k: int| 0 <= k < idx ==> lex_lt(vs[k], w@),
        decreases n - idx,
    {
        idx = idx + 1;
    }
    if idx < n {
        if v[idx].eq(w) {
            // already present
            assert(views_of(v@).contains(w@)) by {
                assert(views_of(v@)[idx as int] == w@);
            }
            return ;
        }
    }
    proof {
        if idx < n {
            assert(!lex_lt(vs[idx as int], w@));
            assert(vs[idx as int] != w@);
            lemma_lex_total(w@, vs[idx as int]);
            assert(lex_lt(w@, vs[idx as int]));
        }
        assert forall|k: int| idx <= k < n implies lex_lt(w@, vs[k]) by {
            if k > idx {
                assert(lex_lt(vs[idx as int], vs[k]));
                lemma_lex_trans(w@, vs[idx as int], vs[k]);
            }
        }
    }
    let wc: String = w.clone();
    proof {
        assert(wc@ == w@);
        v@.insert_ensures(idx as int, wc);
    }
    v.insert(idx, wc);
    proof {
        let nvs = views_of(v@);
        assert(nvs.len() == n + 1);
        assert forall|k: int| 0 <= k < nvs.len() implies nvs[k] == (if k < idx {
            vs[k]
        } else if k == idx {
            w@
        } else {
            vs[k - 1]
        }) by {
            if k < idx {
                assert(v@[k] == old(v)@[k]);
            } else if k > idx {
                assert(v@[k] == old(v)@[k - 1]);
            }
        }
        assert forall|i: int, j: int| 0 <= i < j < nvs.len() implies lex_lt(nvs[i], nvs[j]) by {
            if i < idx && j < idx {
            } else if i < idx && j == idx {
                assert(lex_lt(vs[i], w@));
            } else if i == idx {
                assert(lex_lt(w@, vs[j - 1]));
            } else if i < idx && j > idx {
                assert(lex_lt(vs[i], vs[j - 1]));
            }
        }
        assert forall|x: Seq<char>| #[trigger] nvs.contains(x) implies (vs.contains(x) || x == w@)
            by {
            let k = choose|k: int| 0 <= k < nvs.len() && nvs[k] == x;
            if k < idx {
                assert(vs[k] == x);
            } else if k > idx {
                assert(vs[k - 1] == x);
            }
        }
        assert forall|x: Seq<char>| vs.contains(x) || x == w@ implies #[trigger] nvs.contains(x)
            by {
            if vs.contains(x) {
                let k = choose|k: int| 0 <= k < vs.len() && vs[k] == x;
                if k < idx {
                    assert(nvs[k] == x);
                } else {
                    assert(nvs[k + 1] == x);
                }
            } else {
                assert(nvs[idx as int] == x);
            }
        }
    }
}

/// Whether token `w` occurs in some document among the first `d` of `docs`,
/// or among the first `t` tokens of `extra`.
pub open spec fn token_seen(
    docs: Seq<Document>,
    d: int,
    extra: Seq<Seq<char>>,
    t: int,
    w: Seq<char>,
) -> bool {
    (exists|i: int| 0 <= i < d && tokens_of(docs[i].text@).contains(w)) || extra.take(t).contains(
        w,
    )
}

/// Whether `w` is a dimension of the vocabulary of `docs`: it occurs in some
/// document and is not a stop word.
pub open spec fn in_vocab(docs: Seq<Document>, stops: Seq<Seq<char>>, w: Seq<char>) -> bool {
    (exists|i: int| 0 <= i < docs.len() && tokens_of(docs[i].text@).contains(w))
        && !stops.contains(w)
}

/// Derives the tier vocabulary: tokenizes every document, drops English stop
/// words, deduplicates, and sorts ascending. The result is the unique
/// strictly sorted sequence holding exactly the kept tokens, so it does not
/// depend on document order.
pub fn build_vocabulary(docs: &Vec<Document>) -> (r: Vec<String>)
    ensures
        strict_sorted(views_of(r@)),
        forall|w: Seq<char>| #[trigger] views_of(r@).contains(w) <==> in_vocab(
            docs@,
            stop_list("en"@),
            w,
        ),
        views_of(r@) == spec_vocabulary(docs@, stop_list("en"@)),
{
    let stops: Vec<String> = english_stop_words();
    let mut vocab: Vec<String> = Vec::new();
    let n = docs.len();
    for d in 0..n
        invariant
            n == docs@.len(),
            views_of(stops@) == stop_list("en"@),
            strict_sorted(views_of(vocab@)),
            forall|w: Seq<char>| #[trigger] views_of(vocab@).contains(w) <==> (token_seen(
                docs@,
                d as int,
                Seq::empty(),
                0,
                w,
            ) && !stop_list("en"@).contains(w)),
    {
        let toks: Vec<String> = tokenize(docs[d].text.as_str());
        let ghost tv: Seq<Seq<char>> = views_of(toks@);
        let m = toks.len();
        proof {
            assert(tv.take(0) =~= Seq::<Seq<char>>::empty());
        }
        for t in 0..m
            invariant
                n == docs@.len(),
                0 <= d < n,
                m == toks@.len(),
                tv == views_of(toks@),
                tv == tokens_of(docs@[d as int].text@),
                views_of(stops@) == stop_list("en"@),
                strict_sorted(views_of(vocab@)),
                forall|w: Seq<char>| #[trigger] views_of(vocab@).contains(w) <==> (token_seen(
                    docs@,
                    d as int,
                    tv,
                    t as int,
                    w,
                ) && !stop_list("en"@).contains(w)),
        {
            let tok: &String = &toks[t];
            let ghost pre: Seq<Seq<char>> = views_of(vocab@);
            proof {
                assert(tv.take(t + 1) =~= tv.take(t as int).push(tv[t as int]));
                assert(tok@ == tv[t as int]);
            }
            if !contains_string(&stops, tok) {
                insert_sorted(&mut vocab, tok);
            }
            proof {
                assert forall|w: Seq<char>| #[trigger] views_of(vocab@).contains(w) implies (
                token_seen(docs@, d as int, tv, t + 1, w) && !stop_list("en"@).contains(w)) by {
                    if pre.contains(w) {
                        assert(token_seen(docs@, d as int, tv, t as int, w));
                        if tv.take(t as int).contains(w) {
                            let k = choose|k: int|
                                0 <= k < tv.take(t as int).len() && tv.take(t as int)[k] == w;
                            assert(tv.take(t + 1)[k] == w);
                        }
                    } else {
                        assert(w == tv[t as int]);
                        assert(tv.take(t + 1)[t as int] == w);
                    }
                }
                assert forall|w: Seq<char>|
                    token_seen(docs@, d as int, tv, t + 1, w) && !stop_list("en"@).contains(
                        w,
                    ) implies #[trigger] views_of(vocab@).contains(w) by {
                    if tv.take(t + 1).contains(w) && !tv.take(t as int).contains(w) {
                        let k = choose|k: int|
                            0 <= k < tv.take(t + 1).len() && #[trigger] tv.take(t + 1)[k] == w;
                        assert(k == t);
                        assert(w == tv[t as int]);
                        assert(!stop_list("en"@).contains(tok@));
                        assert(views_of(vocab@).contains(tok@));
                    } else {
                        assert(token_seen(docs@, d as int, tv, t as int, w));
                        assert(pre.contains(w));
                    }
                }
            }
        }
        proof {
            assert forall|w: Seq<char>|
                #[trigger] token_seen(docs@, d + 1, Seq::empty(), 0, w) implies token_seen(
                docs@,
                d as int,
                tv,
                m as int,
                w,
            ) by {
                let i = choose|i: int| 0 <= i < d + 1 && tokens_of(docs@[i].text@).contains(w);
                if i == d {
                    assert(tv.take(m as int) =~= tv);
                }
            }
            assert forall|w: Seq<char>|
                #[trigger] token_seen(docs@, d as int, tv, m as int, w) implies token_seen(
                docs@,
                d + 1,
                Seq::empty(),
                0,
                w,
            ) by {
                if tv.take(m as int).contains(w) {
                    assert(tv.take(m as int) =~= tv);
                    assert(tokens_of(docs@[d as int].text@).contains(w));
                }
            }
        }
    }
    proof {
        let stops_v = stop_list("en"@);
        let vs = views_of(vocab@);
        assert(is_vocabulary(docs@, stops_v, vs));
        assert(exists|v: Seq<Seq<char>>| is_vocabulary(docs@, stops_v, v));
        let cv = spec_vocabulary(docs@, stops_v);
        assert(is_vocabulary(docs@, stops_v, cv));
        assert forall|w: Seq<char>| #[trigger] vs.contains(w) implies cv.contains(w) by {
            assert(in_vocab(docs@, stops_v, w));
        }
        assert forall|w: Seq<char>| #[trigger] cv.contains(w) implies vs.contains(w) by {
            assert(in_vocab(docs@, stops_v, w));
        }
        lemma_strict_sorted_unique(vs, cv);
    }
    vocab
}

/// Whether `v` is the vocabulary of `docs` under stop-word list `stops`:
/// strictly sorted, holding exactly the tokens that occur in some document
/// and are not stop words.
pub open spec fn is_vocabulary(docs: Seq<Document>, stops: Seq<Seq<char>>, v: Seq<Seq<char>>) -> bool {
    strict_sorted(v) && forall|w: Seq<char>| #[trigger] v.contains(w) <==> in_vocab(docs, stops, w)
}

/// The vocabulary of `docs`: by `lemma_strict_sorted_unique` there is at most
/// one sequence satisfying `is_vocabulary`, and `build_vocabulary` witnesses
/// that one exists.
pub open spec fn spec_vocabulary(docs: Seq<Document>, stops: Seq<Seq<char>>) -> Seq<Seq<char>> {
    choose|v: Seq<Seq<char>>| is_vocabulary(docs, stops, v)
}

/// There is only one strictly sorted sequence with a given membership, so a
/// vocabulary is determined by the set of kept tokens alone, independent of
/// the order documents were visited in.
pub proof fn lemma_strict_sorted_unique(a: Seq<Seq<char>>, b: Seq<Seq<char>>)
    requires
        strict_sorted(a),
        strict_sorted(b),
        forall|w: Seq<char>| #[trigger] a.contains(w) ==> b.contains(w),
        forall|w: Seq<char>| #[trigger] b.contains(w) ==> a.contains(w),
    ensures
        a == b,
    decreases a.len(),
{
    if a.len() == 0 {
        if b.len() > 0 {
            assert(b.contains(b[0]));
            assert(false);
        }
        assert(a =~= b);
    } else {
        assert(a.contains(a[0]));
        assert(b.contains(b[0]));
        let i = choose|i: int| 0 <= i < b.len() && b[i] == a[0];
        let j = choose|j: int| 0 <= j < a.len() && a[j] == b[0];
        if i > 0 {
            assert(lex_lt(b[0], b[i]));
            assert(lex_lt(b[0], a[0]));
            if j > 0 {
                assert(lex_lt(a[0], a[j]));
                assert(lex_lt(a[0], b[0]));
                lemma_lex_trans(a[0], b[0], a[0]);
                lemma_lex_irrefl(a[0]);
            } else {
                assert(a[0] == b[0]);
                lemma_lex_irrefl(a[0]);
            }
            assert(false);
        }
        assert(b[0] == a[0]);
        let at = a.drop_first();
        let bt = b.drop_first();
        assert forall|w: Seq<char>| #[trigger] at.contains(w) implies bt.contains(w) by {
            let k = choose|k: int| 0 <= k < at.len() && at[k] == w;
            assert(a[k + 1] == w);
            assert(a.contains(w));
            let k2 = choose|k2: int| 0 <= k2 < b.len() && b[k2] == w;
            if k2 == 0 {
                assert(lex_lt(a[0], a[k + 1]));
                lemma_lex_irrefl(a[0]);
            }
            assert(bt[k2 - 1] == w);
        }
        assert forall|w: Seq<char>| #[trigger] bt.contains(w) implies at.contains(w) by {
            let k = choose|k: int| 0 <= k < bt.len() && bt[k] == w;
            assert(b[k + 1] == w);
            assert(b.contains(w));
            let k2 = choose|k2: int| 0 <= k2 < a.len() && a[k2] == w;
            if k2 == 0 {
                assert(lex_lt(b[0], b[k + 1]));
                lemma_lex_irrefl(b[0]);
            }
            assert(at[k2 - 1] == w);
        }
        assert forall|i2: int, j2: int| 0 <= i2 < j2 < at.len() implies lex_lt(at[i2], at[j2]) by {
            assert(lex_lt(a[i2 + 1], a[j2 + 1]));
        }
        assert forall|i2: int, j2: int| 0 <= i2 < j2 < bt.len() implies lex_lt(bt[i2], bt[j2]) by {
            assert(lex_lt(b[i2 + 1], b[j2 + 1]));
        }
        lemma_strict_sorted_unique(at, bt);
        assert forall|k: int| 0 <= k < a.len() implies a[k] == b[k] by {
            if k > 0 {
                assert(at[k - 1] == a[k]);
                assert(bt[k - 1] == b[k]);
            }
        }
        assert(a =~= b);
    }
}

} // verus!
