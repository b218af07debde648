use vstd::prelude::*;

use crate::tokens::{is_ws, is_whitespace_char, toks, HtmlToken, Tok};

verus! {

/// Length of the maximal word at the head of `s`: characters up to the
/// first whitespace character or `<`.
pub open spec fn word_len(s: Seq<char>) -> nat
    decreases s.len(),
{
    if s.len() == 0 || is_ws(s[0]) || s[0] == '<' {
        0
    } else {
        1 + word_len(s.skip(1))
    }
}

/// The name collected by scanning a tag body: the characters before the
/// first terminator (`>`, `/` or `\`), with embedded whitespace dropped.
pub open spec fn tag_name(s: Seq<char>) -> Seq<char>
    decreases s.len(),
{
    if s.len() == 0 {
        Seq::empty()
    } else if s[0] == '>' || s[0] == '/' || s[0] == '\\' {
        Seq::empty()
    } else if is_ws(s[0]) {
        tag_name(s.skip(1))
    } else {
        seq![s[0]] + tag_name(s.skip(1))
    }
}

/// How many characters the tag-body scan consumes: everything up to and
/// including the terminator, where a `/` directly followed by `>` consumes
/// both characters.
pub open spec fn tag_len(s: Seq<char>) -> nat
    decreases s.len(),
{
    if s.len() == 0 {
        0
    } else if s[0] == '/' {
        if s.len() > 1 && s[1] == '>' {
            2
        } else {
            1
        }
    } else if s[0] == '>' || s[0] == '\\' {
        1
    } else {
        1 + tag_len(s.skip(1))
    }
}

pub proof fn lemma_tag_len_le(s: Seq<char>)
    ensures
        tag_len(s) <= s.len(),
    decreases s.len(),
{
    if s.len() == 0 {
    } else if s[0] == '/' {
    } else if s[0] == '>' || s[0] == '\\' {
    } else {
        lemma_tag_len_le(s.skip(1));
    }
}

pub proof fn lemma_word_len_le(s: Seq<char>)
    ensures
        word_len(s) <= s.len(),
    decreases s.len(),
{
    if s.len() == 0 || is_ws(s[0]) || s[0] == '<' {
    } else {
        lemma_word_len_le(s.skip(1));
    }
}

/// The token sequence of an input string, scanned left to right: `<` opens
/// a tag (a directly following `/` or `\` marks it closing, and a tag whose
/// collected name is empty produces no token), each whitespace character
/// becomes one `Space`, and any other character starts a maximal word.
pub open spec fn spec_tokenize(s: Seq<char>) -> Seq<Tok>
    decreases s.len(),
    via spec_tokenize_decreases
{
    if s.len() == 0 {
        Seq::empty()
    } else if s[0] == '<' {
        let rest = s.skip(1);
        let closing = rest.len() > 0 && (rest[0] == '/' || rest[0] == '\\');
        let body = if closing {
            rest.skip(1)
        } else {
            rest
        };
        let name = tag_name(body);
        let after = body.skip(tag_len(body) as int);
        if name.len() > 0 {
            seq![Tok::Tag { name, closing }] + spec_tokenize(after)
        } else {
            spec_tokenize(after)
        }
    } else if is_ws(s[0]) {
        seq![Tok::Space] + spec_tokenize(s.skip(1))
    } else {
        seq![Tok::Word(s.take(word_len(s) as int))] + spec_tokenize(
            s.skip(word_len(s) as int),
        )
    }
}

#[via_fn]
proof fn spec_tokenize_decreases(s: Seq<char>) {
    if s.len() > 0 {
        if s[0] == '<' {
            let rest = s.skip(1);
            let closing = rest.len() > 0 && (rest[0] == '/' || rest[0] == '\\');
            let body = if closing {
                rest.skip(1)
            } else {
                rest
            };
            lemma_tag_len_le(body);
        } else if !is_ws(s[0]) {
            lemma_word_len_le(s);
        }
    }
}

/// Relies on String::push: appends exactly one character to the string.
#[verifier::external_body]
fn push_char(s: &mut String, c: char)
    ensures
        final(s)@ == old(s)@.push(c),
{
    s.push(c);
}

/// Turns a markup string into its token sequence, as `spec_tokenize`
/// describes.
pub fn tokenize_html(input: &str) -> (r: Vec<HtmlToken>)
    ensures
        toks(r@) == spec_tokenize(input@),
{
    let n = input.unicode_len();
    let mut tokens: Vec<HtmlToken> = Vec::new();
    let mut i: usize = 0;
    proof {
        assert(toks(tokens@) =~= Seq::<Tok>::empty());
        assert(input@.skip(0) =~= input@);
    }
    while i < n
        invariant
            n == input@.len(),
            i <= n,
            toks(tokens@) + spec_tokenize(input@.skip(i as int)) == spec_tokenize(input@),
        decreases n - i,
    {
        let ghost s_at = input@.skip(i as int);
        assert(s_at[0] == input@[i as int]);
        let c = input.get_char(i);
        if c == '<' {
            let mut j = i + 1;
            let mut is_closing = false;
            if j < n {
                let c2 = input.get_char(j);
                if c2 == '/' || c2 == '\\' {
                    is_closing = true;
                    j = j + 1;
                }
            }
            let ghost jb = j as int;
            let ghost body = input@.skip(jb);
            proof {
                assert(s_at.skip(1) =~= input@.skip(i + 1));
                if is_closing {
                    assert(input@.skip(i + 1).skip(1) =~= input@.skip(i + 2));
                }
            }
            let mut name = String::new();
            let mut terminated = false;
            while j < n
                invariant_except_break
                    n == input@.len(),
                    jb <= j <= n,
                    body == input@.skip(jb),
                    !terminated,
                    tag_name(body) == name@ + tag_name(input@.skip(j as int)),
                    tag_len(body) == j - jb + tag_len(input@.skip(j as int)),
                ensures
                    jb <= j <= n,
                    name@ == tag_name(body),
                    j - jb == tag_len(body),
                decreases n - j,
            {
                let ghost t_at = input@.skip(j as int);
                assert(t_at[0] == input@[j as int]);
                proof {
                    assert(t_at.skip(1) =~= input@.skip(j + 1));
                }
                let tc = input.get_char(j);
                if tc == '>' || tc == '/' || tc == '\\' {
                    j = j + 1;
                    if tc == '/' {
                        if j < n {
                            let c3 = input.get_char(j);
                            if c3 == '>' {
                                assert(t_at.len() > 1 && t_at[1] == input@[j as int]);
                                j = j + 1;
                            }
                        } else {
                            assert(t_at.len() == 1);
                        }
                    }
                    terminated = true;
                    break ;
                } else if is_whitespace_char(tc) {
                    j = j + 1;
                } else {
                    push_char(&mut name, tc);
                    j = j + 1;
                    proof {
                        assert(name@ + tag_name(input@.skip(j as int)) =~= tag_name(body));
                    }
                }
            }
            proof {
                if !terminated {
                    assert(input@.skip(n as int).len() == 0);
                }
            }
            if name.unicode_len() > 0 {
                let tok = HtmlToken::HtmlTag { name, is_closing };
                let ghost old_tokens = tokens@;
                tokens.push(tok);
                proof {
                    assert(toks(tokens@) =~= toks(old_tokens).push(
                        Tok::Tag { name: tag_name(body), closing: is_closing },
                    ));
                }
            }
            proof {
                assert(body.skip(tag_len(body) as int) =~= input@.skip(j as int));
                assert(toks(tokens@) + spec_tokenize(input@.skip(j as int)) == spec_tokenize(
                    input@,
                ));
            }
            i = j;
        } else if is_whitespace_char(c) {
            let ghost old_tokens = tokens@;
            tokens.push(HtmlToken::Space);
            proof {
                assert(toks(tokens@) =~= toks(old_tokens).push(Tok::Space));
                assert(s_at.skip(1) =~= input@.skip(i + 1));
            }
            i = i + 1;
        } else {
            let mut j = i + 1;
            proof {
                assert(s_at.skip(1) =~= input@.skip(i + 1));
            }
            while j < n
                invariant_except_break
                    n == input@.len(),
                    i < j <= n,
                    s_at == input@.skip(i as int),
                    word_len(s_at) == j - i + word_len(input@.skip(j as int)),
                ensures
                    i < j <= n,
                    word_len(s_at) == j - i,
                decreases n - j,
            {
                let ghost t_at = input@.skip(j as int);
                assert(t_at[0] == input@[j as int]);
                let tc = input.get_char(j);
                if is_whitespace_char(tc) || tc == '<' {
                    break ;
                }
                proof {
                    assert(t_at.skip(1) =~= input@.skip(j + 1));
                }
                j = j + 1;
            }
            proof {
                if j == n {
                    assert(input@.skip(n as int).len() == 0);
                }
            }
            let word = input.substring_char(i, j).to_owned();
            let ghost old_tokens = tokens@;
            tokens.push(HtmlToken::Word(word));
            proof {
                assert(s_at.take(word_len(s_at) as int) =~= input@.subrange(i as int, j as int));
                assert(s_at.skip(word_len(s_at) as int) =~= input@.skip(j as int));
                assert(toks(tokens@) =~= toks(old_tokens).push(
                    Tok::Word(s_at.take(word_len(s_at) as int)),
                ));
            }
            i = j;
        }
    }
    proof {
        assert(input@.skip(n as int).len() == 0);
        assert(toks(tokens@) =~= toks(tokens@) + spec_tokenize(input@.skip(n as int)));
    }
    tokens
}

} // verus!
