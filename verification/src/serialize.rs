use vstd::prelude::*;
use vstd::slice::slice_index_get;

use crate::tokens::{toks, HtmlToken, Tok};

verus! {

/// The text one token serializes to: a word verbatim, a space as one space
/// character, a tag as `<name>` or `</name>`.
pub open spec fn tok_text(t: Tok) -> Seq<char> {
    match t {
        Tok::Word(w) => w,
        Tok::Space => seq![' '],
        Tok::Tag { name, closing } => if closing {
            seq!['<', '/'] + name + seq!['>']
        } else {
            seq!['<'] + name + seq!['>']
        },
    }
}

/// The serialized text of a token sequence: each token's text, concatenated
/// in order.
pub open spec fn spec_serialize(ts: Seq<Tok>) -> Seq<char>
    decreases ts.len(),
{
    if ts.len() == 0 {
        Seq::empty()
    } else {
        tok_text(ts[0]) + spec_serialize(ts.skip(1))
    }
}

pub proof fn lemma_serialize_push(ts: Seq<Tok>, t: Tok)
    ensures
        spec_serialize(ts.push(t)) == spec_serialize(ts) + tok_text(t),
    decreases ts.len(),
{
    if ts.len() == 0 {
        assert(ts.push(t)[0] == t);
        assert(ts.push(t).skip(1) =~= Seq::<Tok>::empty());
        assert(spec_serialize(ts.push(t).skip(1)) =~= Seq::<char>::empty());
        assert(spec_serialize(ts.push(t)) =~= spec_serialize(ts) + tok_text(t));
    } else {
        assert(ts.push(t).skip(1) =~= ts.skip(1).push(t));
        lemma_serialize_push(ts.skip(1), t);
        assert(ts.push(t)[0] == ts[0]);
        assert(spec_serialize(ts.push(t)) =~= spec_serialize(ts) + tok_text(t));
    }
}

/// Serializes a token sequence back to markup text, as `spec_serialize`
/// describes.
pub fn html_tokens_to_string(tokens: Vec<HtmlToken>) -> (r: String)
    ensures
        r@ == spec_serialize(toks(tokens@)),
{
    serialize_slice(tokens.as_slice())
}

/// Serializes a borrowed token sequence back to markup text.
pub(crate) fn serialize_slice(tokens: &[HtmlToken]) -> (r: String)
    ensures
        r@ == spec_serialize(toks(tokens@)),
{
    let mut output = String::new();
    let mut i: usize = 0;
    proof {
        assert(toks(tokens@).take(0) =~= Seq::<Tok>::empty());
    }
    while i < tokens.len()
        invariant
            i <= tokens@.len(),
            output@ == spec_serialize(toks(tokens@).take(i as int)),
        decreases tokens@.len() - i,
    {
        let ghost done = toks(tokens@).take(i as int);
        let ghost cur = toks(tokens@)[i as int];
        proof {
            assert(toks(tokens@).take(i + 1) =~= done.push(cur));
            lemma_serialize_push(done, cur);
            assert(cur == tokens@[i as int]@);
        }
        match slice_index_get(tokens, i) {
            HtmlToken::Word(w) => {
                output.append(w.as_str());
            },
            HtmlToken::Space => {
                proof {
                    reveal_strlit(" ");
                }
                output.append(" ");
                proof {
                    assert(" "@ =~= seq![' ']);
                }
            },
            HtmlToken::HtmlTag { name, is_closing } => {
                proof {
                    reveal_strlit("<");
                    reveal_strlit("</");
                    reveal_strlit(">");
                    assert("<"@ =~= seq!['<']);
                    assert("</"@ =~= seq!['<', '/']);
                    assert(">"@ =~= seq!['>']);
                }
                if *is_closing {
                    output.append("</");
                } else {
                    output.append("<");
                }
                output.append(name.as_str());
                output.append(">");
                proof {
                    assert(output@ =~= spec_serialize(done) + tok_text(cur));
                }
            },
        }
        proof {
            assert(output@ =~= spec_serialize(done) + tok_text(cur));
        }
        i = i + 1;
    }
    proof {
        assert(toks(tokens@).take(tokens@.len() as int) =~= toks(tokens@));
    }
    output
}


/// Each whitespace character replaced by one plain space.
pub open spec fn normalize_ws(s: Seq<char>) -> Seq<char> {
    s.map_values(
        |c: char|
            if crate::tokens::is_ws(c) {
                ' '
            } else {
                c
            },
    )
}

proof fn lemma_word_chars(s: Seq<char>)
    ensures
        forall|i: int|
            0 <= i < crate::tokenizer::word_len(s) ==> !crate::tokens::is_ws(#[trigger] s[i]) && s[i]
                != '<',
    decreases s.len(),
{
    if s.len() == 0 || crate::tokens::is_ws(s[0]) || s[0] == '<' {
    } else {
        crate::tokenizer::lemma_word_len_le(s);
        crate::tokenizer::lemma_word_len_le(s.skip(1));
        lemma_word_chars(s.skip(1));
        assert forall|i: int| 0 <= i < crate::tokenizer::word_len(s) implies !crate::tokens::is_ws(
            #[trigger] s[i],
        ) && s[i] != '<' by {
            if i >= 1 {
                assert(s[i] == s.skip(1)[i - 1]);
            }
        }
    }
}

/// Round-trip law for markup-free text: serializing the tokens of a string
/// that holds no `<` reproduces the string, with each whitespace character
/// normalized to one plain space.
pub proof fn lemma_round_trip(s: Seq<char>)
    requires
        forall|i: int| 0 <= i < s.len() ==> s[i] != '<',
    ensures
        spec_serialize(crate::tokenizer::spec_tokenize(s)) == normalize_ws(s),
    decreases s.len(),
{
    let toks = crate::tokenizer::spec_tokenize(s);
    if s.len() == 0 {
        assert(normalize_ws(s) =~= Seq::<char>::empty());
    } else if crate::tokens::is_ws(s[0]) {
        let rest = crate::tokenizer::spec_tokenize(s.skip(1));
        assert(toks == seq![Tok::Space] + rest);
        assert((seq![Tok::Space] + rest)[0] == Tok::Space);
        assert((seq![Tok::Space] + rest).skip(1) =~= rest);
        assert forall|i: int| 0 <= i < s.skip(1).len() implies s.skip(1)[i] != '<' by {
            assert(s.skip(1)[i] == s[i + 1]);
        }
        lemma_round_trip(s.skip(1));
        assert(spec_serialize(toks) == seq![' '] + normalize_ws(s.skip(1)));
        assert(normalize_ws(s) =~= seq![' '] + normalize_ws(s.skip(1)));
    } else {
        let n = crate::tokenizer::word_len(s) as int;
        crate::tokenizer::lemma_word_len_le(s);
        assert(n >= 1);
        let rest = crate::tokenizer::spec_tokenize(s.skip(n));
        assert(toks == seq![Tok::Word(s.take(n))] + rest);
        assert((seq![Tok::Word(s.take(n))] + rest)[0] == Tok::Word(s.take(n)));
        assert((seq![Tok::Word(s.take(n))] + rest).skip(1) =~= rest);
        assert forall|i: int| 0 <= i < s.skip(n).len() implies s.skip(n)[i] != '<' by {
            assert(s.skip(n)[i] == s[i + n]);
        }
        lemma_round_trip(s.skip(n));
        lemma_word_chars(s);
        assert(spec_serialize(toks) == s.take(n) + normalize_ws(s.skip(n)));
        assert(normalize_ws(s) =~= s.take(n) + normalize_ws(s.skip(n)));
    }
}

} // verus!

verus! {

/// A character a word may hold: anything but whitespace and `<`.
pub open spec fn wf_word_char(c: char) -> bool {
    !crate::tokens::is_ws(c) && c != '<'
}

/// A character a tag name may hold: anything but whitespace and the
/// delimiter characters the tag scan stops at.
pub open spec fn wf_name_char(c: char) -> bool {
    !crate::tokens::is_ws(c) && c != '<' && c != '>' && c != '/' && c != '\\'
}

/// A token the tokenizer itself could have produced: a non-empty word of
/// word characters, a tag with a non-empty name of name characters, or a
/// space.
pub open spec fn wf_token(t: Tok) -> bool {
    match t {
        Tok::Word(w) => w.len() > 0 && forall|i: int| 0 <= i < w.len() ==> wf_word_char(#[trigger] w[i]),
        Tok::Tag { name, .. } => name.len() > 0 && forall|i: int|
            0 <= i < name.len() ==> wf_name_char(#[trigger] name[i]),
        Tok::Space => true,
    }
}

/// A token sequence that serialization keeps readable: every token
/// well-formed, and no two words directly adjacent (the tokenizer would
/// read them back as one).
pub open spec fn wf_tokens(ts: Seq<Tok>) -> bool {
    (forall|i: int| 0 <= i < ts.len() ==> wf_token(#[trigger] ts[i])) && (forall|i: int|
        #![trigger ts[i], ts[i + 1]]
        0 <= i < ts.len() - 1 ==> !(ts[i] is Word && ts[i + 1] is Word))
}

proof fn lemma_word_len_concat(w: Seq<char>, b: Seq<char>)
    requires
        forall|i: int| 0 <= i < w.len() ==> wf_word_char(#[trigger] w[i]),
        b.len() == 0 || crate::tokens::is_ws(b[0]) || b[0] == '<',
    ensures
        crate::tokenizer::word_len(w + b) == w.len(),
    decreases w.len(),
{
    if w.len() == 0 {
        assert(w + b =~= b);
    } else {
        assert((w + b)[0] == w[0]);
        assert((w + b).skip(1) =~= w.skip(1) + b);
        assert forall|i: int| 0 <= i < w.skip(1).len() implies wf_word_char(
            #[trigger] w.skip(1)[i],
        ) by {
            assert(w.skip(1)[i] == w[i + 1]);
        }
        lemma_word_len_concat(w.skip(1), b);
    }
}

proof fn lemma_tag_scan_concat(name: Seq<char>, b: Seq<char>)
    requires
        forall|i: int| 0 <= i < name.len() ==> wf_name_char(#[trigger] name[i]),
        b.len() > 0,
        b[0] == '>',
    ensures
        crate::tokenizer::tag_name(name + b) == name,
        crate::tokenizer::tag_len(name + b) == name.len() + 1,
    decreases name.len(),
{
    if name.len() == 0 {
        assert(name + b =~= b);
        assert(crate::tokenizer::tag_name(name + b) =~= name);
    } else {
        assert((name + b)[0] == name[0]);
        assert((name + b).skip(1) =~= name.skip(1) + b);
        assert forall|i: int| 0 <= i < name.skip(1).len() implies wf_name_char(
            #[trigger] name.skip(1)[i],
        ) by {
            assert(name.skip(1)[i] == name[i + 1]);
        }
        lemma_tag_scan_concat(name.skip(1), b);
        assert(crate::tokenizer::tag_name(name + b) =~= seq![name[0]] + name.skip(1));
        assert(seq![name[0]] + name.skip(1) =~= name);
    }
}

proof fn lemma_wf_tokens_skip(ts: Seq<Tok>)
    requires
        wf_tokens(ts),
        ts.len() >= 1,
    ensures
        wf_tokens(ts.skip(1)),
{
    let t = ts.skip(1);
    assert forall|i: int| 0 <= i < t.len() implies wf_token(#[trigger] t[i]) by {
        assert(t[i] == ts[i + 1]);
    }
    assert forall|i: int|
        #![trigger t[i], t[i + 1]]
        0 <= i < t.len() - 1 implies !(t[i] is Word && t[i + 1] is Word) by {
        assert(t[i] == ts[i + 1]);
        assert(t[i + 1] == ts[i + 2]);
    }
}

/// Round-trip law at the token level: tokenizing the serialized text of a
/// well-formed token sequence gives the sequence back, tags included.
pub proof fn lemma_serialize_round_trip(ts: Seq<Tok>)
    requires
        wf_tokens(ts),
    ensures
        crate::tokenizer::spec_tokenize(spec_serialize(ts)) == ts,
    decreases ts.len(),
{
    if ts.len() == 0 {
    } else {
        let s = spec_serialize(ts);
        let rest_text = spec_serialize(ts.skip(1));
        assert(s == tok_text(ts[0]) + rest_text);
        lemma_wf_tokens_skip(ts);
        lemma_serialize_round_trip(ts.skip(1));
        assert(wf_token(ts[0]));
        // what the text after the first token starts with
        if ts.len() >= 2 {
            assert(rest_text == tok_text(ts[1]) + spec_serialize(ts.skip(1).skip(1)));
            assert(tok_text(ts[1]).len() > 0);
            assert(rest_text[0] == tok_text(ts[1])[0]);
        }
        match ts[0] {
            Tok::Space => {
                assert(s[0] == ' ');
                assert(crate::tokens::is_ws(' '));
                assert(s.skip(1) =~= rest_text);
                assert(crate::tokenizer::spec_tokenize(s) =~= ts);
            },
            Tok::Word(w) => {
                assert(s =~= w + rest_text);
                assert(s[0] == w[0]);
                assert(wf_word_char(w[0]));
                if ts.len() >= 2 {
                    // the next token is a space or a tag, so its text opens
                    // with a whitespace character or `<`
                    assert(!(ts[1] is Word));
                    match ts[1] {
                        Tok::Space => {
                            assert(rest_text[0] == ' ');
                        },
                        Tok::Tag { name, closing } => {
                            if closing {
                                assert(tok_text(ts[1])[0] == (seq!['<', '/'] + name
                                    + seq!['>'])[0]);
                            }
                            assert(rest_text[0] == '<');
                        },
                        _ => {},
                    }
                }
                lemma_word_len_concat(w, rest_text);
                assert(crate::tokenizer::word_len(s) == w.len());
                assert(s.take(w.len() as int) =~= w);
                assert(s.skip(w.len() as int) =~= rest_text);
                assert(crate::tokenizer::spec_tokenize(s) =~= ts);
            },
            Tok::Tag { name, closing } => {
                let b = seq!['>'] + rest_text;
                assert(b[0] == '>');
                if closing {
                    assert(s =~= seq!['<', '/'] + (name + b));
                    assert(s[0] == '<');
                    let r = s.skip(1);
                    assert(r =~= seq!['/'] + (name + b));
                    assert(r[0] == '/');
                    assert(r.skip(1) =~= name + b);
                    lemma_tag_scan_concat(name, b);
                    assert((name + b).skip(name.len() as int + 1) =~= rest_text);
                    assert(crate::tokenizer::spec_tokenize(s) =~= ts);
                } else {
                    assert(s =~= seq!['<'] + (name + b));
                    assert(s[0] == '<');
                    let r = s.skip(1);
                    assert(r =~= name + b);
                    assert(r[0] == name[0]);
                    assert(wf_name_char(name[0]));
                    lemma_tag_scan_concat(name, b);
                    assert((name + b).skip(name.len() as int + 1) =~= rest_text);
                    assert(crate::tokenizer::spec_tokenize(s) =~= ts);
                }
            },
        }
    }
}

} // verus!
