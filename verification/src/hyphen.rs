use vstd::prelude::*;

use crate::tokens::{toks, token_copy, HtmlToken, Tok};

verus! {

/// The fragments an over-long word is cut into: chunks of `max` characters,
/// each chunk but the last carrying a trailing hyphen; a word of at most
/// `max` characters stays whole.
pub open spec fn spec_hyphenate_word(w: Seq<char>, max: nat) -> Seq<Seq<char>>
    decreases w.len(),
    when max >= 1 || w.len() <= max
{
    if w.len() <= max {
        seq![w]
    } else {
        seq![w.take(max as int).push('-')] + spec_hyphenate_word(w.skip(max as int), max)
    }
}

/// What hyphenation does to one token: an over-long word becomes its
/// fragment words; every other token stays itself.
pub open spec fn frag_toks(t: Tok, max: nat) -> Seq<Tok> {
    match t {
        Tok::Word(w) => if w.len() > max {
            spec_hyphenate_word(w, max).map_values(|x: Seq<char>| Tok::Word(x))
        } else {
            seq![t]
        },
        _ => seq![t],
    }
}

/// What hyphenation does to a token sequence: each token replaced by
/// `frag_toks`, in order.
pub open spec fn spec_hyphenate_tokens(ts: Seq<Tok>, max: nat) -> Seq<Tok>
    decreases ts.len(),
{
    if ts.len() == 0 {
        Seq::empty()
    } else {
        frag_toks(ts[0], max) + spec_hyphenate_tokens(ts.skip(1), max)
    }
}

pub proof fn lemma_hyphenate_tokens_push(ts: Seq<Tok>, t: Tok, max: nat)
    ensures
        spec_hyphenate_tokens(ts.push(t), max) == spec_hyphenate_tokens(ts, max) + frag_toks(
            t,
            max,
        ),
    decreases ts.len(),
{
    if ts.len() == 0 {
        assert(ts.push(t)[0] == t);
        assert(ts.push(t).skip(1) =~= Seq::<Tok>::empty());
        assert(spec_hyphenate_tokens(ts.push(t).skip(1), max) =~= Seq::<Tok>::empty());
        assert(spec_hyphenate_tokens(ts.push(t), max) =~= spec_hyphenate_tokens(ts, max)
            + frag_toks(t, max));
    } else {
        assert(ts.push(t).skip(1) =~= ts.skip(1).push(t));
        lemma_hyphenate_tokens_push(ts.skip(1), t, max);
        assert(ts.push(t)[0] == ts[0]);
        assert(spec_hyphenate_tokens(ts.push(t), max) =~= spec_hyphenate_tokens(ts, max)
            + frag_toks(t, max));
    }
}

/// Cuts a word into fragments of at most `max_length` characters, each
/// fragment but the last carrying a trailing hyphen; a word of at most
/// `max_length` characters comes back whole.
pub fn hyphenate_word(word: &String, max_length: usize) -> (r: Vec<String>)
    requires
        max_length >= 1,
    ensures
        r@.map_values(|s: String| s@) == spec_hyphenate_word(word@, max_length as nat),
{
    let n = word.as_str().unicode_len();
    if n <= max_length {
        let r = vec![word.clone()];
        proof {
            assert(r@.map_values(|s: String| s@) =~= seq![word@]);
        }
        return r;
    }
    let mut result: Vec<String> = Vec::new();
    let mut start: usize = 0;
    proof {
        assert(result@.map_values(|s: String| s@) =~= Seq::<Seq<char>>::empty());
        assert(word@.skip(0) =~= word@);
        assert(spec_hyphenate_word(word@, max_length as nat) =~= Seq::<Seq<char>>::empty()
            + spec_hyphenate_word(word@.skip(0), max_length as nat));
    }
    while start < n
        invariant
            max_length >= 1,
            n == word@.len(),
            start <= n,
            start < n ==> spec_hyphenate_word(word@, max_length as nat) == result@.map_values(
                |s: String| s@,
            ) + spec_hyphenate_word(word@.skip(start as int), max_length as nat),
            start == n ==> spec_hyphenate_word(word@, max_length as nat) == result@.map_values(
                |s: String| s@,
            ),
        decreases n - start,
    {
        let ghost before = result@.map_values(|s: String| s@);
        let ghost rem = word@.skip(start as int);
        if max_length < n - start {
            let end = start + max_length;
            let seg = word.as_str().substring_char(start, end);
            let mut frag = seg.to_owned();
            proof {
                reveal_strlit("-");
                assert("-"@ =~= seq!['-']);
            }
            frag.append("-");
            proof {
                assert(frag@ =~= rem.take(max_length as int).push('-'));
            }
            result.push(frag);
            proof {
                assert(result@.map_values(|s: String| s@) =~= before.push(
                    rem.take(max_length as int).push('-'),
                ));
                assert(rem.skip(max_length as int) =~= word@.skip(end as int));
                assert(spec_hyphenate_word(rem, max_length as nat) =~= seq![
                    rem.take(max_length as int).push('-'),
                ] + spec_hyphenate_word(word@.skip(end as int), max_length as nat));
                assert(spec_hyphenate_word(word@, max_length as nat) =~= result@.map_values(
                    |s: String| s@,
                ) + spec_hyphenate_word(word@.skip(end as int), max_length as nat));
            }
            start = end;
        } else {
            let seg = word.as_str().substring_char(start, n);
            result.push(seg.to_owned());
            proof {
                assert(rem.len() <= max_length as nat);
                assert(spec_hyphenate_word(rem, max_length as nat) =~= seq![rem]);
                assert(result@.map_values(|s: String| s@) =~= before.push(rem));
                assert(spec_hyphenate_word(word@, max_length as nat) =~= result@.map_values(
                    |s: String| s@,
                ));
            }
            start = n;
        }
    }
    result
}

/// Rewrites the token sequence in place: every word longer than
/// `max_length` is replaced by its hyphenated fragments, in order; every
/// other token is untouched.
pub fn hyphenate(html_tokens: &mut Vec<HtmlToken>, max_length: usize)
    requires
        max_length >= 1,
    ensures
        toks(final(html_tokens)@) == spec_hyphenate_tokens(
            toks(old(html_tokens)@),
            max_length as nat,
        ),
{
    let ghost input = toks(html_tokens@);
    let mut out: Vec<HtmlToken> = Vec::new();
    let mut i: usize = 0;
    proof {
        assert(toks(out@) =~= Seq::<Tok>::empty());
        assert(input.take(0) =~= Seq::<Tok>::empty());
        assert(spec_hyphenate_tokens(input.take(0), max_length as nat) =~= Seq::<Tok>::empty());
    }
    while i < html_tokens.len()
        invariant
            max_length >= 1,
            i <= html_tokens@.len(),
            input == toks(html_tokens@),
            toks(out@) == spec_hyphenate_tokens(input.take(i as int), max_length as nat),
        decreases html_tokens@.len() - i,
    {
        let ghost cur = input[i as int];
        proof {
            assert(input.take(i + 1) =~= input.take(i as int).push(cur));
            lemma_hyphenate_tokens_push(input.take(i as int), cur, max_length as nat);
            assert(cur == html_tokens@[i as int]@);
        }
        let oversized = match &html_tokens[i] {
            HtmlToken::Word(w) => w.as_str().unicode_len() > max_length,
            _ => false,
        };
        if oversized {
            let frags = match &html_tokens[i] {
                HtmlToken::Word(w) => hyphenate_word(w, max_length),
                _ => Vec::new(),
            };
            let ghost fseq = frags@.map_values(|s: String| s@);
            let ghost out_before = toks(out@);
            let mut k: usize = 0;
            proof {
                assert(fseq.take(0).map_values(|x: Seq<char>| Tok::Word(x)) =~= Seq::<
                    Tok,
                >::empty());
                assert(toks(out@) =~= out_before + fseq.take(0).map_values(
                    |x: Seq<char>| Tok::Word(x),
                ));
            }
            while k < frags.len()
                invariant
                    k <= frags@.len(),
                    fseq == frags@.map_values(|s: String| s@),
                    toks(out@) == out_before + fseq.take(k as int).map_values(
                        |x: Seq<char>| Tok::Word(x),
                    ),
                decreases frags@.len() - k,
            {
                out.push(HtmlToken::Word(frags[k].clone()));
                proof {
                    assert(fseq.take(k + 1).map_values(|x: Seq<char>| Tok::Word(x))
                        =~= fseq.take(k as int).map_values(|x: Seq<char>| Tok::Word(x)).push(
                        Tok::Word(fseq[k as int]),
                    ));
                    assert(toks(out@) =~= (out_before + fseq.take(k as int).map_values(
                        |x: Seq<char>| Tok::Word(x),
                    )).push(Tok::Word(fseq[k as int])));
                }
                k = k + 1;
            }
            proof {
                assert(fseq.take(frags@.len() as int) =~= fseq);
                assert(frag_toks(cur, max_length as nat) == fseq.map_values(
                    |x: Seq<char>| Tok::Word(x),
                ));
                assert(toks(out@) =~= spec_hyphenate_tokens(input.take(i as int), max_length as nat)
                    + frag_toks(cur, max_length as nat));
            }
        } else {
            out.push(token_copy(&html_tokens[i]));
            proof {
                assert(frag_toks(cur, max_length as nat) =~= seq![cur]);
                assert(toks(out@) =~= spec_hyphenate_tokens(input.take(i as int), max_length as nat)
                    + frag_toks(cur, max_length as nat));
            }
        }
        i = i + 1;
    }
    proof {
        assert(input.take(html_tokens@.len() as int) =~= input);
    }
    *html_tokens = out;
}


/// Re-joins hyphenated fragments: every fragment but the last loses its
/// trailing character (the inserted hyphen) and the pieces concatenate.
pub open spec fn spec_join_fragments(fs: Seq<Seq<char>>) -> Seq<char>
    decreases fs.len(),
{
    if fs.len() == 0 {
        Seq::empty()
    } else if fs.len() == 1 {
        fs[0]
    } else {
        fs[0].drop_last() + spec_join_fragments(fs.skip(1))
    }
}

/// The hyphenation laws: a word of at most `max` characters comes back
/// whole; a non-empty word is cut into exactly `(len + max - 1) / max`
/// fragments (the length divided by `max`, rounded up), each of at most
/// `max + 1` characters; and dropping the trailing hyphen of every fragment
/// but the last re-joins the fragments to the original word.
pub proof fn lemma_hyphenation(w: Seq<char>, max: nat)
    requires
        max >= 1,
    ensures
        w.len() <= max ==> spec_hyphenate_word(w, max) == seq![w],
        w.len() >= 1 ==> spec_hyphenate_word(w, max).len() == (w.len() + max - 1) as int / (
        max as int),
        forall|i: int|
            0 <= i < spec_hyphenate_word(w, max).len() ==> #[trigger] spec_hyphenate_word(w, max)[i].len()
                <= max + 1,
        spec_join_fragments(spec_hyphenate_word(w, max)) == w,
    decreases w.len(),
{
    let fs = spec_hyphenate_word(w, max);
    if w.len() <= max {
        assert(fs == seq![w]);
        assert(fs.len() == 1);
        assert(fs[0] == w);
        if w.len() >= 1 {
            let l = w.len() as int;
            let m = max as int;
            vstd::arithmetic::div_mod::lemma_fundamental_div_mod_converse(l + m - 1, m, 1, l - 1);
        }
        assert(spec_join_fragments(fs) == w);
    } else {
        let first = w.take(max as int).push('-');
        let tail = w.skip(max as int);
        let rest = spec_hyphenate_word(tail, max);
        lemma_hyphenation(tail, max);
        assert(fs == seq![first] + rest);
        assert(fs.len() == 1 + rest.len());
        // the fragment count is the length divided by max, rounded up
        let l = w.len() as int;
        let m = max as int;
        vstd::arithmetic::div_mod::lemma_fundamental_div_mod(l - 1, m);
        vstd::arithmetic::div_mod::lemma_mod_bound(l - 1, m);
        let q = (l - 1) / m;
        let r = (l - 1) % m;
        assert(tail.len() as int + m - 1 == l - 1);
        assert(l - 1 == m * q + r);
        assert(l + m - 1 == (q + 1) * m + r) by (nonlinear_arith)
            requires
                l - 1 == m * q + r,
        ;
        vstd::arithmetic::div_mod::lemma_fundamental_div_mod_converse(l + m - 1, m, q + 1, r);
        // each fragment is at most max + 1 characters
        assert(first.len() == max + 1);
        assert forall|i: int| 0 <= i < fs.len() implies #[trigger] fs[i].len() <= max + 1 by {
            if i >= 1 {
                assert(fs[i] == rest[i - 1]);
            }
        }
        // dropping the hyphens re-joins the fragments to the word
        assert(rest.len() >= 1);
        assert(fs.skip(1) =~= rest);
        assert(first.drop_last() =~= w.take(max as int));
        assert(spec_join_fragments(fs) == first.drop_last() + spec_join_fragments(rest));
        assert(w.take(max as int) + tail =~= w);
    }
}

} // verus!
