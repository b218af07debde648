use vstd::prelude::*;
use vstd::slice::slice_index_get;

use crate::tokens::{lemma_add_push, toks, token_copy, HtmlToken, Tok};

verus! {

/// The text of a word token.
pub open spec fn word_text(t: Tok) -> Seq<char> {
    match t {
        Tok::Word(w) => w,
        _ => Seq::empty(),
    }
}

/// The text of the first word token in `q`, if any.
pub open spec fn first_word(q: Seq<Tok>) -> Option<Seq<char>>
    decreases q.len(),
{
    if q.len() == 0 {
        None
    } else {
        match q[0] {
            Tok::Word(w) => Some(w),
            _ => first_word(q.skip(1)),
        }
    }
}

/// Whether any word token remains in `q`.
pub open spec fn has_word(q: Seq<Tok>) -> bool {
    first_word(q) is Some
}

/// The open-tag names a stack of strings carries, outermost first.
pub open spec fn stack_names(st: Seq<String>) -> Seq<Seq<char>> {
    st.map_values(|s: String| s@)
}

/// The synthesized tokens that reopen every tag still open at a line start:
/// one opening tag per stack entry, outermost first.
pub open spec fn reopen_tags(stack: Seq<Seq<char>>) -> Seq<Tok> {
    stack.map_values(|n: Seq<char>| Tok::Tag { name: n, closing: false })
}

/// The synthesized tokens that close every tag still open at a line end:
/// one closing tag per stack entry, innermost first.
pub open spec fn close_tags(stack: Seq<Seq<char>>) -> Seq<Tok> {
    stack.reverse().map_values(|n: Seq<char>| Tok::Tag { name: n, closing: true })
}

/// The outcome of filling one line: the tokens placed between the
/// synthesized reopen prefix and close suffix, the remaining queue, the
/// open-tag stack afterwards, and whether tag matching succeeded.
pub struct LineFill {
    pub line: Seq<Tok>,
    pub queue: Seq<Tok>,
    pub stack: Seq<Seq<char>>,
    pub ok: bool,
}

/// `fl` with `placed` already on the line before it.
pub open spec fn fill_extend(placed: Seq<Tok>, fl: LineFill) -> LineFill {
    LineFill { line: placed + fl.line, queue: fl.queue, stack: fl.stack, ok: fl.ok }
}

/// Consuming tokens for one line of width budget `max`, with `len`
/// characters already used: a tag or space is taken only if the next word
/// still fits after it (a space that does not fit is dropped and ends the
/// line); a closing tag must match the innermost open tag, anything else is
/// a hard failure; a word at the head is always taken.
pub open spec fn spec_fill_line(q: Seq<Tok>, stack: Seq<Seq<char>>, len: nat, max: nat) -> LineFill
    decreases q.len(),
{
    if len >= max || q.len() == 0 {
        LineFill { line: Seq::empty(), queue: q, stack, ok: true }
    } else {
        match q[0] {
            Tok::Tag { name, closing } => match first_word(q) {
                None => LineFill { line: Seq::empty(), queue: q, stack, ok: true },
                Some(w) => if len + w.len() > max {
                    LineFill { line: Seq::empty(), queue: q, stack, ok: true }
                } else if !closing {
                    fill_extend(seq![q[0]], spec_fill_line(q.skip(1), stack.push(name), len, max))
                } else if stack.len() > 0 && stack.last() == name {
                    fill_extend(
                        seq![q[0]],
                        spec_fill_line(q.skip(1), stack.drop_last(), len, max),
                    )
                } else {
                    LineFill { line: Seq::empty(), queue: q, stack, ok: false }
                },
            },
            Tok::Space => match first_word(q) {
                None => LineFill { line: Seq::empty(), queue: q, stack, ok: true },
                Some(w) => if len + 1 + w.len() > max {
                    LineFill { line: Seq::empty(), queue: q.skip(1), stack, ok: true }
                } else {
                    fill_extend(
                        seq![Tok::Space],
                        spec_fill_line(q.skip(1), stack, (len + 1) as nat, max),
                    )
                },
            },
            Tok::Word(w) => fill_extend(
                seq![q[0]],
                spec_fill_line(q.skip(1), stack, (len + w.len()) as nat, max),
            ),
        }
    }
}

/// The wrapped lines of `q` given the open tags in `stack`: no result on a
/// tag-matching failure or when a line could take no token at all;
/// otherwise one line per round of `spec_fill_line`, framed by its reopen
/// and close tokens, until no word remains.
pub open spec fn spec_wrap_loop(q: Seq<Tok>, stack: Seq<Seq<char>>, max: nat) -> Option<
    Seq<Seq<Tok>>,
>
    decreases q.len(),
{
    if !has_word(q) {
        Some(Seq::empty())
    } else {
        let fl = spec_fill_line(q, stack, 0, max);
        if !fl.ok {
            None
        } else if fl.queue.len() >= q.len() {
            None
        } else {
            let line = reopen_tags(stack) + fl.line + close_tags(fl.stack);
            match spec_wrap_loop(fl.queue, fl.stack, max) {
                None => None,
                Some(rest) => Some(seq![line] + rest),
            }
        }
    }
}

/// The wrapped lines of a token sequence at width `max`.
pub open spec fn spec_wrap(ts: Seq<Tok>, max: nat) -> Option<Seq<Seq<Tok>>> {
    spec_wrap_loop(ts, Seq::empty(), max)
}

/// The model of a sequence of lines.
pub open spec fn lines_view(ls: Seq<Vec<HtmlToken>>) -> Seq<Seq<Tok>> {
    ls.map_values(|l: Vec<HtmlToken>| toks(l@))
}

/// Index of the first word token at or after `from`, if any.
fn first_word_from(tokens: &[HtmlToken], from: usize) -> (r: Option<usize>)
    requires
        from <= tokens@.len(),
    ensures
        match r {
            Some(k) => from <= k < tokens@.len() && tokens@[k as int]@ is Word && first_word(
                toks(tokens@).skip(from as int),
            ) == Some(word_text(tokens@[k as int]@)),
            None => first_word(toks(tokens@).skip(from as int)) is None,
        },
{
    let n = tokens.len();
    let mut k = from;
    while k < n
        invariant
            from <= k <= n,
            n == tokens@.len(),
            first_word(toks(tokens@).skip(from as int)) == first_word(
                toks(tokens@).skip(k as int),
            ),
        decreases n - k,
    {
        let ghost q = toks(tokens@).skip(k as int);
        proof {
            assert(q[0] == tokens@[k as int]@);
            assert(q.skip(1) =~= toks(tokens@).skip(k + 1));
        }
        match slice_index_get(tokens, k) {
            HtmlToken::Word(_) => {
                return Some(k);
            },
            _ => {
                k = k + 1;
            },
        }
    }
    proof {
        assert(toks(tokens@).skip(n as int).len() == 0);
    }
    None
}

/// The character count of the word token at `k`.
fn word_len_at(tokens: &[HtmlToken], k: usize) -> (r: usize)
    requires
        k < tokens@.len(),
        tokens@[k as int]@ is Word,
    ensures
        r == word_text(tokens@[k as int]@).len(),
{
    match slice_index_get(tokens, k) {
        HtmlToken::Word(w) => w.as_str().unicode_len(),
        _ => {
            proof {
                assert(false);
            }
            0
        },
    }
}

/// Greedily wraps a token sequence into lines of at most `max_line_length`
/// characters, reopening and closing spanning tags at line boundaries, as
/// `spec_wrap` describes; no result exactly when `spec_wrap` has none (a
/// closing tag without its matching open tag still on the stack, or a line
/// that could take no token at all).
pub fn wrap_html_tokens(tokens: &[HtmlToken], max_line_length: usize) -> (r: Option<
    Vec<Vec<HtmlToken>>,
>)
    ensures
        match r {
            Some(lines) => spec_wrap(toks(tokens@), max_line_length as nat) == Some(
                lines_view(lines@),
            ),
            None => spec_wrap(toks(tokens@), max_line_length as nat) is None,
        },
{
    let ghost total = toks(tokens@);
    let ghost max = max_line_length as nat;
    let n = tokens.len();
    let mut lines: Vec<Vec<HtmlToken>> = Vec::new();
    let mut stack: Vec<String> = Vec::new();
    let mut qi: usize = 0;
    proof {
        assert(total.skip(0) =~= total);
        assert(lines_view(lines@) =~= Seq::<Seq<Tok>>::empty());
        assert(stack_names(stack@) =~= Seq::<Seq<char>>::empty());
    }
    loop
        invariant
            qi <= n,
            n == tokens@.len(),
            total == toks(tokens@),
            max == max_line_length as nat,
            spec_wrap(total, max) == (match spec_wrap_loop(
                total.skip(qi as int),
                stack_names(stack@),
                max,
            ) {
                None => None::<Seq<Seq<Tok>>>,
                Some(rest) => Some(lines_view(lines@) + rest),
            }),
        ensures
            !has_word(total.skip(qi as int)),
            spec_wrap(total, max) == (match spec_wrap_loop(
                total.skip(qi as int),
                stack_names(stack@),
                max,
            ) {
                None => None::<Seq<Seq<Tok>>>,
                Some(rest) => Some(lines_view(lines@) + rest),
            }),
        decreases n - qi,
    {
        let fw = first_word_from(tokens, qi);
        if fw.is_none() {
            break ;
        }
        let ghost q0 = total.skip(qi as int);
        let ghost st0 = stack_names(stack@);
        let ghost lines0 = lines@;
        let qi0 = qi;
        assert(has_word(q0));

        // seed the line with a reopening tag for every open tag, outermost
        // first
        let mut current: Vec<HtmlToken> = Vec::new();
        let mut si: usize = 0;
        proof {
            assert(toks(current@) =~= reopen_tags(st0.take(0)));
        }
        while si < stack.len()
            invariant
                si <= stack@.len(),
                st0 == stack_names(stack@),
                toks(current@) == reopen_tags(st0.take(si as int)),
            decreases stack@.len() - si,
        {
            let name = stack[si].clone();
            current.push(HtmlToken::HtmlTag { name, is_closing: false });
            proof {
                assert(st0.take(si + 1) =~= st0.take(si as int).push(st0[si as int]));
                assert(reopen_tags(st0.take(si + 1)) =~= reopen_tags(st0.take(si as int)).push(
                    Tok::Tag { name: st0[si as int], closing: false },
                ));
                assert(toks(current@) =~= reopen_tags(st0.take(si as int)).push(
                    Tok::Tag { name: st0[si as int], closing: false },
                ));
            }
            si = si + 1;
        }
        proof {
            assert(st0.take(stack@.len() as int) =~= st0);
        }

        let mut len: usize = 0;
        let ghost mut glen: nat = 0nat;
        let ghost mut placed: Seq<Tok> = Seq::empty();
        proof {
            let fl0 = spec_fill_line(q0, st0, 0, max);
            assert(placed + fl0.line =~= fl0.line);
            assert(toks(current@) =~= reopen_tags(st0) + placed);
        }
        loop
            invariant_except_break
                spec_fill_line(q0, st0, 0, max) == fill_extend(
                    placed,
                    spec_fill_line(total.skip(qi as int), stack_names(stack@), glen, max),
                ),
            invariant
                n == tokens@.len(),
                total == toks(tokens@),
                max == max_line_length as nat,
                q0 == total.skip(qi0 as int),
                has_word(q0),
                qi0 <= qi <= n,
                len <= max_line_length,
                len as nat == if glen >= max {
                    max
                } else {
                    glen
                },
                toks(current@) == reopen_tags(st0) + placed,
                spec_wrap_loop(q0, st0, max) is None ==> spec_wrap(total, max) is None,
            ensures
                qi0 <= qi <= n,
                toks(current@) == reopen_tags(st0) + placed,
                spec_fill_line(q0, st0, 0, max) == (LineFill {
                    line: placed,
                    queue: total.skip(qi as int),
                    stack: stack_names(stack@),
                    ok: true,
                }),
            decreases n - qi,
        {
            let ghost q = total.skip(qi as int);
            let ghost names = stack_names(stack@);
            let ghost fl = spec_fill_line(q, names, glen, max);
            if !(len < max_line_length && qi < n) {
                proof {
                    assert(len == max_line_length ==> glen >= max);
                    assert(qi == n ==> q.len() == 0);
                    assert(fl == (LineFill { line: Seq::<Tok>::empty(), queue: q, stack: names, ok: true }));
                    assert(placed + fl.line =~= placed);
                }
                break ;
            }
            proof {
                assert(q[0] == tokens@[qi as int]@);
                assert(q.skip(1) =~= total.skip(qi + 1));
                assert(glen < max);
            }
            let ghost placed0 = placed;
            match slice_index_get(tokens, qi) {
                HtmlToken::Word(w) => {
                    let wlen = w.as_str().unicode_len();
                    let ghost cur0 = current@;
                    current.push(token_copy(slice_index_get(tokens, qi)));
                    proof {
                        let rec = spec_fill_line(
                            q.skip(1),
                            names,
                            (glen + word_text(q[0]).len()) as nat,
                            max,
                        );
                        assert(fl == fill_extend(seq![q[0]], rec));
                        assert(toks(current@) =~= toks(cur0).push(q[0]));
                        lemma_add_push(reopen_tags(st0), placed0, q[0]);
                        assert(placed0 + (seq![q[0]] + rec.line) =~= placed0.push(q[0])
                            + rec.line);
                        placed = placed0.push(q[0]);
                        glen = glen + word_text(q[0]).len();
                        assert(toks(current@) == reopen_tags(st0) + placed);
                        assert(spec_fill_line(q0, st0, 0, max) == fill_extend(
                            placed,
                            spec_fill_line(total.skip(qi + 1), names, glen, max),
                        ));
                    }
                    if wlen < max_line_length - len {
                        len = len + wlen;
                    } else {
                        len = max_line_length;
                    }
                    qi = qi + 1;
                },
                HtmlToken::Space => {
                    let fw2 = first_word_from(tokens, qi);
                    match fw2 {
                        None => {
                            proof {
                                assert(fl == (LineFill {
                                    line: Seq::<Tok>::empty(),
                                    queue: q,
                                    stack: names,
                                    ok: true,
                                }));
                                assert(placed + fl.line =~= placed);
                            }
                            break ;
                        },
                        Some(wi) => {
                            let wlen = word_len_at(tokens, wi);
                            proof {
                                assert(first_word(q) == Some(word_text(tokens@[wi as int]@)));
                            }
                            if wlen > max_line_length - len - 1 {
                                qi = qi + 1;
                                proof {
                                    assert(fl == (LineFill {
                                        line: Seq::<Tok>::empty(),
                                        queue: q.skip(1),
                                        stack: names,
                                        ok: true,
                                    }));
                                    assert(placed + fl.line =~= placed);
                                    assert(total.skip(qi as int) =~= q.skip(1));
                                }
                                break ;
                            } else {
                                let ghost cur0 = current@;
                                current.push(HtmlToken::Space);
                                proof {
                                    let rec = spec_fill_line(
                                        q.skip(1),
                                        names,
                                        (glen + 1) as nat,
                                        max,
                                    );
                                    assert(fl == fill_extend(seq![Tok::Space], rec));
                                    assert(toks(current@) =~= toks(cur0).push(Tok::Space));
                                    lemma_add_push(reopen_tags(st0), placed0, Tok::Space);
                                    assert(placed0 + (seq![Tok::Space] + rec.line) =~= placed0.push(
                                        Tok::Space,
                                    ) + rec.line);
                                    placed = placed0.push(Tok::Space);
                                    glen = glen + 1;
                                    assert(toks(current@) == reopen_tags(st0) + placed);
                                    assert(spec_fill_line(q0, st0, 0, max) == fill_extend(
                                        placed,
                                        spec_fill_line(total.skip(qi + 1), names, glen, max),
                                    ));
                                }
                                len = len + 1;
                                qi = qi + 1;
                            }
                        },
                    }
                },
                HtmlToken::HtmlTag { name: tag_name, is_closing } => {
                    let fw2 = first_word_from(tokens, qi);
                    match fw2 {
                        None => {
                            proof {
                                assert(fl == (LineFill {
                                    line: Seq::<Tok>::empty(),
                                    queue: q,
                                    stack: names,
                                    ok: true,
                                }));
                                assert(placed + fl.line =~= placed);
                            }
                            break ;
                        },
                        Some(wi) => {
                            let wlen = word_len_at(tokens, wi);
                            proof {
                                assert(first_word(q) == Some(word_text(tokens@[wi as int]@)));
                            }
                            if wlen > max_line_length - len {
                                proof {
                                    assert(fl == (LineFill {
                                        line: Seq::<Tok>::empty(),
                                        queue: q,
                                        stack: names,
                                        ok: true,
                                    }));
                                    assert(placed + fl.line =~= placed);
                                }
                                break ;
                            }
                            if !*is_closing {
                                stack.push(tag_name.clone());
                                let ghost cur0 = current@;
                                current.push(token_copy(slice_index_get(tokens, qi)));
                                proof {
                                    let nm = q[0]->name;
                                    assert(stack_names(stack@) =~= names.push(nm));
                                    let rec = spec_fill_line(q.skip(1), names.push(nm), glen, max);
                                    assert(fl == fill_extend(seq![q[0]], rec));
                                    assert(toks(current@) =~= toks(cur0).push(q[0]));
                                    lemma_add_push(reopen_tags(st0), placed0, q[0]);
                                    assert(placed0 + (seq![q[0]] + rec.line) =~= placed0.push(q[0])
                                        + rec.line);
                                    placed = placed0.push(q[0]);
                                    assert(toks(current@) == reopen_tags(st0) + placed);
                                    assert(spec_fill_line(q0, st0, 0, max) == fill_extend(
                                        placed,
                                        spec_fill_line(
                                            total.skip(qi + 1),
                                            stack_names(stack@),
                                            glen,
                                            max,
                                        ),
                                    ));
                                }
                                qi = qi + 1;
                            } else {
                                let popped = stack.pop();
                                match popped {
                                    None => {
                                        proof {
                                            assert(names.len() == 0);
                                            assert(!fl.ok);
                                            assert(!spec_fill_line(q0, st0, 0, max).ok);
                                            assert(spec_wrap_loop(q0, st0, max) is None);
                                        }
                                        return None;
                                    },
                                    Some(top) => {
                                        proof {
                                            assert(stack_names(stack@) =~= names.drop_last());
                                            assert(names.last() == top@);
                                        }
                                        if top == *tag_name {
                                            let ghost cur0 = current@;
                                            current.push(token_copy(slice_index_get(tokens, qi)));
                                            proof {
                                                let rec = spec_fill_line(
                                                    q.skip(1),
                                                    names.drop_last(),
                                                    glen,
                                                    max,
                                                );
                                                assert(names.last() == q[0]->name);
                                                assert(fl == fill_extend(seq![q[0]], rec));
                                                assert(toks(current@) =~= toks(cur0).push(q[0]));
                                                lemma_add_push(reopen_tags(st0), placed0, q[0]);
                                                assert(placed0 + (seq![q[0]] + rec.line)
                                                    =~= placed0.push(q[0]) + rec.line);
                                                placed = placed0.push(q[0]);
                                                assert(toks(current@) == reopen_tags(st0)
                                                    + placed);
                                                assert(spec_fill_line(q0, st0, 0, max)
                                                    == fill_extend(
                                                    placed,
                                                    spec_fill_line(
                                                        total.skip(qi + 1),
                                                        stack_names(stack@),
                                                        glen,
                                                        max,
                                                    ),
                                                ));
                                            }
                                            qi = qi + 1;
                                        } else {
                                            proof {
                                                assert(!(names.last() == q[0]->name));
                                                assert(!fl.ok);
                                                assert(!spec_fill_line(q0, st0, 0, max).ok);
                                                assert(spec_wrap_loop(q0, st0, max) is None);
                                            }
                                            return None;
                                        }
                                    },
                                }
                            }
                        },
                    }
                },
            }
        }
        // explicit failure when a line took nothing: the queue must shrink
        if qi == qi0 {
            proof {
                assert(spec_fill_line(q0, st0, 0, max).queue.len() >= q0.len());
                assert(spec_wrap_loop(q0, st0, max) is None);
            }
            return None;
        }
        // close every still-open tag, innermost first
        let ghost names_end = stack_names(stack@);
        let mut cj: usize = stack.len();
        proof {
            assert(names_end.reverse().take(0).map_values(
                |nm: Seq<char>| Tok::Tag { name: nm, closing: true },
            ) =~= Seq::<Tok>::empty());
            assert(toks(current@) =~= reopen_tags(st0) + placed + names_end.reverse().take(
                0,
            ).map_values(|nm: Seq<char>| Tok::Tag { name: nm, closing: true }));
        }
        while cj > 0
            invariant
                cj <= stack@.len(),
                names_end == stack_names(stack@),
                toks(current@) == reopen_tags(st0) + placed + names_end.reverse().take(
                    stack@.len() - cj,
                ).map_values(|nm: Seq<char>| Tok::Tag { name: nm, closing: true }),
            decreases cj,
        {
            let name = stack[cj - 1].clone();
            let ghost cur0 = current@;
            current.push(HtmlToken::HtmlTag { name, is_closing: true });
            proof {
                let rev = names_end.reverse();
                let done = stack@.len() - cj;
                assert(rev[done] == names_end[cj - 1]);
                assert(toks(current@) =~= toks(cur0).push(
                    Tok::Tag { name: rev[done], closing: true },
                ));
                assert(rev.take(done + 1) =~= rev.take(done).push(rev[done]));
                assert(rev.take(done + 1).map_values(
                    |nm: Seq<char>| Tok::Tag { name: nm, closing: true },
                ) =~= rev.take(done).map_values(
                    |nm: Seq<char>| Tok::Tag { name: nm, closing: true },
                ).push(Tok::Tag { name: rev[done], closing: true }));
                lemma_add_push(
                    reopen_tags(st0) + placed,
                    rev.take(done).map_values(|nm: Seq<char>| Tok::Tag { name: nm, closing: true }),
                    Tok::Tag { name: rev[done], closing: true },
                );
                assert(reopen_tags(st0) + placed + rev.take(done).map_values(
                    |nm: Seq<char>| Tok::Tag { name: nm, closing: true },
                ).push(Tok::Tag { name: rev[done], closing: true }) =~= (reopen_tags(st0) + placed
                    + rev.take(done).map_values(
                    |nm: Seq<char>| Tok::Tag { name: nm, closing: true },
                )).push(Tok::Tag { name: rev[done], closing: true }));
                assert(toks(current@) == reopen_tags(st0) + placed + rev.take(done + 1).map_values(
                    |nm: Seq<char>| Tok::Tag { name: nm, closing: true },
                ));
            }
            cj = cj - 1;
        }
        proof {
            assert(names_end.reverse().take(stack@.len() as int) =~= names_end.reverse());
            assert(toks(current@) =~= reopen_tags(st0) + placed + close_tags(names_end));
        }
        lines.push(current);
        proof {
            let fl0 = spec_fill_line(q0, st0, 0, max);
            assert(fl0.queue.len() < q0.len());
            let line_model = reopen_tags(st0) + fl0.line + close_tags(fl0.stack);
            assert(toks(lines@[lines@.len() - 1]@) =~= line_model);
            assert(lines_view(lines@) =~= lines_view(lines0).push(line_model));
            let rest_opt = spec_wrap_loop(total.skip(qi as int), names_end, max);
            if rest_opt is Some {
                let rest = spec_wrap_loop(total.skip(qi as int), names_end, max)->0;
                assert(spec_wrap_loop(q0, st0, max) == Some(seq![line_model] + rest));
                assert(lines_view(lines0) + (seq![line_model] + rest) =~= lines_view(lines@)
                    + rest);
            } else {
                assert(spec_wrap_loop(q0, st0, max) is None);
            }
        }
    }
    proof {
        let fin = total.skip(qi as int);
        assert(spec_wrap_loop(fin, stack_names(stack@), max) == Some(Seq::<Seq<Tok>>::empty()));
        assert(lines_view(lines@) + Seq::<Seq<Tok>>::empty() =~= lines_view(lines@));
    }
    Some(lines)
}


/// Runs the tag matcher over `ts` starting from `stack`: an opening tag
/// pushes its name, a closing tag must match the innermost open name, and
/// words and spaces change nothing; no result on a mismatch.
pub open spec fn balance_from(ts: Seq<Tok>, stack: Seq<Seq<char>>) -> Option<Seq<Seq<char>>>
    decreases ts.len(),
{
    if ts.len() == 0 {
        Some(stack)
    } else {
        match ts[0] {
            Tok::Tag { name, closing } => if !closing {
                balance_from(ts.skip(1), stack.push(name))
            } else if stack.len() > 0 && stack.last() == name {
                balance_from(ts.skip(1), stack.drop_last())
            } else {
                None
            },
            _ => balance_from(ts.skip(1), stack),
        }
    }
}

/// A token sequence is tag-balanced when the matcher runs through it from
/// an empty stack and ends with an empty stack.
pub open spec fn balanced(ts: Seq<Tok>) -> bool {
    balance_from(ts, Seq::empty()) == Some(Seq::<Seq<char>>::empty())
}

proof fn lemma_balance_concat(a: Seq<Tok>, b: Seq<Tok>, stack: Seq<Seq<char>>)
    ensures
        balance_from(a + b, stack) == (match balance_from(a, stack) {
            None => None::<Seq<Seq<char>>>,
            Some(st2) => balance_from(b, st2),
        }),
    decreases a.len(),
{
    if a.len() == 0 {
        assert(a + b =~= b);
    } else {
        assert((a + b)[0] == a[0]);
        assert((a + b).skip(1) =~= a.skip(1) + b);
        match a[0] {
            Tok::Tag { name, closing } => {
                if !closing {
                    lemma_balance_concat(a.skip(1), b, stack.push(name));
                } else if stack.len() > 0 && stack.last() == name {
                    lemma_balance_concat(a.skip(1), b, stack.drop_last());
                }
            },
            _ => {
                lemma_balance_concat(a.skip(1), b, stack);
            },
        }
    }
}

proof fn lemma_balance_reopen(names: Seq<Seq<char>>, stack: Seq<Seq<char>>)
    ensures
        balance_from(reopen_tags(names), stack) == Some(stack + names),
    decreases names.len(),
{
    if names.len() == 0 {
        assert(reopen_tags(names).len() == 0);
        assert(stack + names =~= stack);
    } else {
        assert(reopen_tags(names)[0] == (Tok::Tag { name: names[0], closing: false }));
        assert(reopen_tags(names).skip(1) =~= reopen_tags(names.skip(1)));
        lemma_balance_reopen(names.skip(1), stack.push(names[0]));
        assert(stack.push(names[0]) + names.skip(1) =~= stack + names);
    }
}

proof fn lemma_balance_close(names: Seq<Seq<char>>)
    ensures
        balance_from(close_tags(names), names) == Some(Seq::<Seq<char>>::empty()),
    decreases names.len(),
{
    if names.len() == 0 {
        assert(close_tags(names).len() == 0);
    } else {
        assert(close_tags(names)[0] == (Tok::Tag { name: names.last(), closing: true }));
        assert(close_tags(names).skip(1) =~= close_tags(names.drop_last()));
        lemma_balance_close(names.drop_last());
    }
}

proof fn lemma_fill_balance(q: Seq<Tok>, stack: Seq<Seq<char>>, len: nat, max: nat)
    requires
        spec_fill_line(q, stack, len, max).ok,
    ensures
        balance_from(spec_fill_line(q, stack, len, max).line, stack) == Some(
            spec_fill_line(q, stack, len, max).stack,
        ),
    decreases q.len(),
{
    let fl = spec_fill_line(q, stack, len, max);
    if len >= max || q.len() == 0 {
    } else {
        match q[0] {
            Tok::Tag { name, closing } => match first_word(q) {
                None => {},
                Some(w) => {
                    if len + w.len() > max {
                    } else if !closing {
                        let rec = spec_fill_line(q.skip(1), stack.push(name), len, max);
                        lemma_fill_balance(q.skip(1), stack.push(name), len, max);
                        assert(fl.line =~= seq![q[0]] + rec.line);
                        lemma_balance_concat(seq![q[0]], rec.line, stack);
                        assert(seq![q[0]].skip(1) =~= Seq::<Tok>::empty());
                        assert(balance_from(seq![q[0]].skip(1), stack.push(name)) == Some(
                            stack.push(name),
                        ));
                        assert(balance_from(seq![q[0]], stack) == Some(stack.push(name)));
                    } else if stack.len() > 0 && stack.last() == name {
                        let rec = spec_fill_line(q.skip(1), stack.drop_last(), len, max);
                        lemma_fill_balance(q.skip(1), stack.drop_last(), len, max);
                        assert(fl.line =~= seq![q[0]] + rec.line);
                        lemma_balance_concat(seq![q[0]], rec.line, stack);
                        assert(seq![q[0]].skip(1) =~= Seq::<Tok>::empty());
                        assert(balance_from(seq![q[0]].skip(1), stack.drop_last()) == Some(
                            stack.drop_last(),
                        ));
                        assert(balance_from(seq![q[0]], stack) == Some(stack.drop_last()));
                    }
                },
            },
            Tok::Space => match first_word(q) {
                None => {},
                Some(w) => {
                    if len + 1 + w.len() > max {
                    } else {
                        let rec = spec_fill_line(q.skip(1), stack, (len + 1) as nat, max);
                        lemma_fill_balance(q.skip(1), stack, (len + 1) as nat, max);
                        assert(fl.line =~= seq![Tok::Space] + rec.line);
                        lemma_balance_concat(seq![Tok::Space], rec.line, stack);
                        assert(seq![Tok::Space].skip(1) =~= Seq::<Tok>::empty());
                        assert(balance_from(seq![Tok::Space].skip(1), stack) == Some(stack));
                        assert(balance_from(seq![Tok::Space], stack) == Some(stack));
                    }
                },
            },
            Tok::Word(w) => {
                let rec = spec_fill_line(q.skip(1), stack, (len + w.len()) as nat, max);
                lemma_fill_balance(q.skip(1), stack, (len + w.len()) as nat, max);
                assert(fl.line =~= seq![q[0]] + rec.line);
                lemma_balance_concat(seq![q[0]], rec.line, stack);
                assert(seq![q[0]].skip(1) =~= Seq::<Tok>::empty());
                assert(balance_from(seq![q[0]].skip(1), stack) == Some(stack));
                assert(balance_from(seq![q[0]], stack) == Some(stack));
            },
        }
    }
}

proof fn lemma_wrap_loop_balanced(q: Seq<Tok>, stack: Seq<Seq<char>>, max: nat)
    requires
        spec_wrap_loop(q, stack, max) is Some,
    ensures
        forall|i: int|
            0 <= i < spec_wrap_loop(q, stack, max)->0.len() ==> balanced(
                #[trigger] spec_wrap_loop(q, stack, max)->0[i],
            ),
    decreases q.len(),
{
    if !has_word(q) {
    } else {
        let fl = spec_fill_line(q, stack, 0, max);
        let line = reopen_tags(stack) + fl.line + close_tags(fl.stack);
        let rest = spec_wrap_loop(fl.queue, fl.stack, max)->0;
        lemma_wrap_loop_balanced(fl.queue, fl.stack, max);
        lemma_balance_concat(reopen_tags(stack) + fl.line, close_tags(fl.stack), Seq::empty());
        lemma_balance_concat(reopen_tags(stack), fl.line, Seq::empty());
        lemma_balance_reopen(stack, Seq::empty());
        assert(Seq::<Seq<char>>::empty() + stack =~= stack);
        lemma_fill_balance(q, stack, 0, max);
        lemma_balance_close(fl.stack);
        assert(balance_from(line, Seq::empty()) == Some(Seq::<Seq<char>>::empty())) by {
            assert(line =~= (reopen_tags(stack) + fl.line) + close_tags(fl.stack));
        }
        assert(balanced(line));
        let lines = spec_wrap_loop(q, stack, max)->0;
        assert(lines =~= seq![line] + rest);
        assert forall|i: int| 0 <= i < lines.len() implies balanced(#[trigger] lines[i]) by {
            if i == 0 {
                assert(lines[i] == line);
            } else {
                assert(lines[i] == rest[i - 1]);
            }
        }
    }
}

/// Tag-balance law: every line the wrapper returns is, on its own,
/// tag-balanced.
pub proof fn lemma_wrap_lines_balanced(ts: Seq<Tok>, max: nat)
    requires
        spec_wrap(ts, max) is Some,
    ensures
        forall|i: int|
            0 <= i < spec_wrap(ts, max)->0.len() ==> balanced(#[trigger] spec_wrap(ts, max)->0[i]),
{
    lemma_wrap_loop_balanced(ts, Seq::empty(), max);
}

/// No-word law: a token sequence without any word token wraps to zero
/// lines.
pub proof fn lemma_wrap_no_word(ts: Seq<Tok>, max: nat)
    requires
        !has_word(ts),
    ensures
        spec_wrap(ts, max) == Some(Seq::<Seq<Tok>>::empty()),
{
}


/// How many word tokens a line holds.
pub open spec fn num_words(ts: Seq<Tok>) -> nat
    decreases ts.len(),
{
    if ts.len() == 0 {
        0
    } else {
        (if ts[0] is Word {
            1nat
        } else {
            0nat
        }) + num_words(ts.skip(1))
    }
}

/// How many space tokens a line holds.
pub open spec fn num_spaces(ts: Seq<Tok>) -> nat
    decreases ts.len(),
{
    if ts.len() == 0 {
        0
    } else {
        (if ts[0] is Space {
            1nat
        } else {
            0nat
        }) + num_spaces(ts.skip(1))
    }
}

/// A token sequence is wrap-safe for width `max` when, of any two directly
/// adjacent word tokens, the first is longer than `max` (and so always
/// stands alone on its line). Tokenized text separates words by spaces or
/// tags, and hyphenation only makes fragments whose forerunners exceed
/// `max`, so the pipeline feeds the wrapper such sequences unless a dropped
/// empty-named tag glued two short words together.
pub open spec fn safe_words(q: Seq<Tok>, max: nat) -> bool {
    forall|i: int|
        #![trigger q[i], q[i + 1]]
        0 <= i < q.len() - 1 ==> ((q[i] is Word && q[i + 1] is Word) ==> word_text(q[i]).len()
            > max)
}

proof fn lemma_stats_concat(a: Seq<Tok>, b: Seq<Tok>)
    ensures
        crate::tokens::line_width(a + b) == crate::tokens::line_width(a)
            + crate::tokens::line_width(b),
        num_words(a + b) == num_words(a) + num_words(b),
        num_spaces(a + b) == num_spaces(a) + num_spaces(b),
    decreases a.len(),
{
    if a.len() == 0 {
        assert(a + b =~= b);
    } else {
        assert((a + b)[0] == a[0]);
        assert((a + b).skip(1) =~= a.skip(1) + b);
        lemma_stats_concat(a.skip(1), b);
    }
}

proof fn lemma_all_tags_stats(ts: Seq<Tok>)
    requires
        forall|i: int| 0 <= i < ts.len() ==> #[trigger] ts[i] is Tag,
    ensures
        crate::tokens::line_width(ts) == 0,
        num_words(ts) == 0,
        num_spaces(ts) == 0,
    decreases ts.len(),
{
    if ts.len() == 0 {
    } else {
        assert(ts[0] is Tag);
        lemma_all_tags_stats(ts.skip(1));
    }
}

proof fn lemma_safe_words_skip(q: Seq<Tok>, max: nat)
    requires
        safe_words(q, max),
        q.len() >= 1,
    ensures
        safe_words(q.skip(1), max),
{
    let t = q.skip(1);
    assert forall|i: int|
        #![trigger t[i], t[i + 1]]
        0 <= i < t.len() - 1 && t[i] is Word && t[i + 1] is Word implies word_text(t[i]).len()
        > max by {
        assert(t[i] == q[i + 1]);
        assert(t[i + 1] == q[i + 2]);
    }
}

proof fn lemma_fill_safe(q: Seq<Tok>, stack: Seq<Seq<char>>, len: nat, max: nat)
    requires
        safe_words(q, max),
    ensures
        safe_words(spec_fill_line(q, stack, len, max).queue, max),
    decreases q.len(),
{
    if len >= max || q.len() == 0 {
    } else {
        lemma_safe_words_skip(q, max);
        match q[0] {
            Tok::Tag { name, closing } => match first_word(q) {
                None => {},
                Some(w) => {
                    if len + w.len() > max {
                    } else if !closing {
                        lemma_fill_safe(q.skip(1), stack.push(name), len, max);
                    } else if stack.len() > 0 && stack.last() == name {
                        lemma_fill_safe(q.skip(1), stack.drop_last(), len, max);
                    }
                },
            },
            Tok::Space => match first_word(q) {
                None => {},
                Some(w) => {
                    if len + 1 + w.len() > max {
                    } else {
                        lemma_fill_safe(q.skip(1), stack, (len + 1) as nat, max);
                    }
                },
            },
            Tok::Word(w) => {
                lemma_fill_safe(q.skip(1), stack, (len + w.len()) as nat, max);
            },
        }
    }
}

proof fn lemma_cons_stats(t: Tok, r: Seq<Tok>)
    ensures
        crate::tokens::line_width(seq![t] + r) == crate::tokens::tok_width(t)
            + crate::tokens::line_width(r),
        num_words(seq![t] + r) == (if t is Word {
            1nat
        } else {
            0nat
        }) + num_words(r),
        num_spaces(seq![t] + r) == (if t is Space {
            1nat
        } else {
            0nat
        }) + num_spaces(r),
{
    assert((seq![t] + r)[0] == t);
    assert((seq![t] + r).skip(1) =~= r);
}

proof fn lemma_fill_width(q: Seq<Tok>, stack: Seq<Seq<char>>, len: nat, max: nat)
    requires
        safe_words(q, max),
        len <= max,
        (q.len() > 0 && q[0] is Word && len > 0) ==> len + word_text(q[0]).len() <= max,
    ensures
        ({
            let fl = spec_fill_line(q, stack, len, max);
            len + crate::tokens::line_width(fl.line) <= max || (len == 0 && q.len() > 0 && q[0]
                is Word && word_text(q[0]).len() > max && fl.line == seq![q[0]])
        }),
    decreases q.len(),
{
    let fl = spec_fill_line(q, stack, len, max);
    if len >= max || q.len() == 0 {
    } else {
        lemma_safe_words_skip(q, max);
        match q[0] {
            Tok::Tag { name, closing } => match first_word(q) {
                None => {},
                Some(w) => {
                    if len + w.len() > max {
                    } else if !closing || (stack.len() > 0 && stack.last() == name) {
                        let st2 = if !closing {
                            stack.push(name)
                        } else {
                            stack.drop_last()
                        };
                        let rec = spec_fill_line(q.skip(1), st2, len, max);
                        if q.skip(1).len() > 0 && q.skip(1)[0] is Word {
                            assert(q[1] == q.skip(1)[0]);
                            assert(first_word(q.skip(1)) == Some(word_text(q[1])));
                            assert(w == word_text(q[1]));
                        }
                        lemma_fill_width(q.skip(1), st2, len, max);
                        lemma_cons_stats(q[0], rec.line);
                        if len == 0 && q.skip(1).len() > 0 && q.skip(1)[0] is Word && word_text(
                            q.skip(1)[0],
                        ).len() > max && rec.line == seq![q.skip(1)[0]] {
                            assert(false);
                        }
                    }
                },
            },
            Tok::Space => match first_word(q) {
                None => {},
                Some(w) => {
                    if len + 1 + w.len() > max {
                    } else {
                        let rec = spec_fill_line(q.skip(1), stack, (len + 1) as nat, max);
                        if q.skip(1).len() > 0 && q.skip(1)[0] is Word {
                            assert(q[1] == q.skip(1)[0]);
                            assert(first_word(q.skip(1)) == Some(word_text(q[1])));
                            assert(w == word_text(q[1]));
                        }
                        lemma_fill_width(q.skip(1), stack, (len + 1) as nat, max);
                        lemma_cons_stats(Tok::Space, rec.line);
                    }
                },
            },
            Tok::Word(w) => {
                let len2 = (len + w.len()) as nat;
                let rec = spec_fill_line(q.skip(1), stack, len2, max);
                if q.skip(1).len() > 0 && q.skip(1)[0] is Word {
                    assert(q[1] == q.skip(1)[0]);
                    assert(word_text(q[0]).len() > max);
                }
                if len > 0 {
                    assert(len2 <= max);
                    lemma_fill_width(q.skip(1), stack, len2, max);
                    lemma_cons_stats(q[0], rec.line);
                } else {
                    if w.len() > max {
                        assert(rec == (LineFill {
                            line: Seq::<Tok>::empty(),
                            queue: q.skip(1),
                            stack,
                            ok: true,
                        }));
                        assert(fl.line =~= seq![q[0]]);
                    } else {
                        lemma_fill_width(q.skip(1), stack, len2, max);
                        lemma_cons_stats(q[0], rec.line);
                    }
                }
            },
        }
    }
}

/// A line that holds exactly one word, no space, and still overflows the
/// width bound: the one shape of line the wrapper may emit beyond the
/// bound, a single word longer than the whole line framed by zero-width
/// tags.
pub open spec fn lone_overlong_word(l: Seq<Tok>, max: nat) -> bool {
    num_spaces(l) == 0 && num_words(l) == 1 && crate::tokens::line_width(l) > max
}

proof fn lemma_wrap_loop_width(q: Seq<Tok>, stack: Seq<Seq<char>>, max: nat)
    requires
        safe_words(q, max),
        spec_wrap_loop(q, stack, max) is Some,
    ensures
        forall|i: int|
            0 <= i < spec_wrap_loop(q, stack, max)->0.len() ==> crate::tokens::line_width(
                #[trigger] spec_wrap_loop(q, stack, max)->0[i],
            ) <= max || lone_overlong_word(spec_wrap_loop(q, stack, max)->0[i], max),
    decreases q.len(),
{
    if !has_word(q) {
    } else {
        let fl = spec_fill_line(q, stack, 0, max);
        let line = reopen_tags(stack) + fl.line + close_tags(fl.stack);
        lemma_fill_safe(q, stack, 0, max);
        lemma_wrap_loop_width(fl.queue, fl.stack, max);
        lemma_fill_width(q, stack, 0, max);
        assert forall|i: int| 0 <= i < reopen_tags(stack).len() implies #[trigger] reopen_tags(
            stack,
        )[i] is Tag by {}
        assert forall|i: int| 0 <= i < close_tags(fl.stack).len() implies #[trigger] close_tags(
            fl.stack,
        )[i] is Tag by {}
        lemma_all_tags_stats(reopen_tags(stack));
        lemma_all_tags_stats(close_tags(fl.stack));
        lemma_stats_concat(reopen_tags(stack) + fl.line, close_tags(fl.stack));
        lemma_stats_concat(reopen_tags(stack), fl.line);
        if !(crate::tokens::line_width(fl.line) <= max) {
            assert(fl.line == seq![q[0]] && q[0] is Word && word_text(q[0]).len() > max);
            lemma_cons_stats(q[0], Seq::empty());
            assert(seq![q[0]] + Seq::<Tok>::empty() =~= seq![q[0]]);
            assert(crate::tokens::line_width(Seq::<Tok>::empty()) == 0);
            assert(num_words(Seq::<Tok>::empty()) == 0);
            assert(num_spaces(Seq::<Tok>::empty()) == 0);
            assert(lone_overlong_word(line, max));
        }
        let lines = spec_wrap_loop(q, stack, max)->0;
        let rest = spec_wrap_loop(fl.queue, fl.stack, max)->0;
        assert(lines =~= seq![line] + rest);
        assert forall|i: int| 0 <= i < lines.len() implies crate::tokens::line_width(
            #[trigger] lines[i],
        ) <= max || lone_overlong_word(lines[i], max) by {
            if i == 0 {
                assert(lines[i] == line);
            } else {
                assert(lines[i] == rest[i - 1]);
            }
        }
    }
}

/// Width law: for a wrap-safe token sequence, every line the wrapper
/// returns has width (word characters plus spaces, tags free) at most
/// `max`, except a line whose sole content is a single word longer than
/// `max`, which stands alone.
pub proof fn lemma_wrap_lines_width(ts: Seq<Tok>, max: nat)
    requires
        safe_words(ts, max),
        spec_wrap(ts, max) is Some,
    ensures
        forall|i: int|
            0 <= i < spec_wrap(ts, max)->0.len() ==> crate::tokens::line_width(
                #[trigger] spec_wrap(ts, max)->0[i],
            ) <= max || lone_overlong_word(spec_wrap(ts, max)->0[i], max),
{
    lemma_wrap_loop_width(ts, Seq::empty(), max);
}

} // verus!

verus! {

/// The word tokens of a sequence, in order.
pub open spec fn words_of(ts: Seq<Tok>) -> Seq<Tok>
    decreases ts.len(),
{
    if ts.len() == 0 {
        Seq::empty()
    } else if ts[0] is Word {
        seq![ts[0]] + words_of(ts.skip(1))
    } else {
        words_of(ts.skip(1))
    }
}

proof fn lemma_words_concat(a: Seq<Tok>, b: Seq<Tok>)
    ensures
        words_of(a + b) == words_of(a) + words_of(b),
    decreases a.len(),
{
    if a.len() == 0 {
        assert(a + b =~= b);
        assert(words_of(a) + words_of(b) =~= words_of(b));
    } else {
        assert((a + b)[0] == a[0]);
        assert((a + b).skip(1) =~= a.skip(1) + b);
        lemma_words_concat(a.skip(1), b);
        if a[0] is Word {
            assert(seq![a[0]] + (words_of(a.skip(1)) + words_of(b)) =~= (seq![a[0]] + words_of(
                a.skip(1),
            )) + words_of(b));
        }
    }
}

proof fn lemma_all_tags_no_words(ts: Seq<Tok>)
    requires
        forall|i: int| 0 <= i < ts.len() ==> #[trigger] ts[i] is Tag,
    ensures
        words_of(ts) == Seq::<Tok>::empty(),
    decreases ts.len(),
{
    if ts.len() == 0 {
    } else {
        assert(ts[0] is Tag);
        lemma_all_tags_no_words(ts.skip(1));
    }
}

proof fn lemma_no_word_no_words(q: Seq<Tok>)
    requires
        !has_word(q),
    ensures
        words_of(q) == Seq::<Tok>::empty(),
    decreases q.len(),
{
    if q.len() == 0 {
    } else {
        assert(!(q[0] is Word));
        lemma_no_word_no_words(q.skip(1));
    }
}

proof fn lemma_fill_words(q: Seq<Tok>, stack: Seq<Seq<char>>, len: nat, max: nat)
    ensures
        ({
            let fl = spec_fill_line(q, stack, len, max);
            words_of(fl.line) + words_of(fl.queue) == words_of(q)
        }),
    decreases q.len(),
{
    let fl = spec_fill_line(q, stack, len, max);
    if len >= max || q.len() == 0 {
        assert(words_of(fl.line) + words_of(q) =~= words_of(q));
    } else {
        match q[0] {
            Tok::Tag { name, closing } => match first_word(q) {
                None => {
                    assert(words_of(fl.line) + words_of(q) =~= words_of(q));
                },
                Some(w) => {
                    if len + w.len() > max {
                        assert(words_of(fl.line) + words_of(q) =~= words_of(q));
                    } else if !closing || (stack.len() > 0 && stack.last() == name) {
                        let st2 = if !closing {
                            stack.push(name)
                        } else {
                            stack.drop_last()
                        };
                        let rec = spec_fill_line(q.skip(1), st2, len, max);
                        lemma_fill_words(q.skip(1), st2, len, max);
                        lemma_words_concat(seq![q[0]], rec.line);
                        assert(seq![q[0]].skip(1) =~= Seq::<Tok>::empty());
                        assert(words_of(seq![q[0]].skip(1)) =~= Seq::<Tok>::empty());
                        assert(words_of(seq![q[0]]) =~= Seq::<Tok>::empty());
                        assert(words_of(fl.line) =~= words_of(rec.line));
                    } else {
                        assert(words_of(fl.line) + words_of(q) =~= words_of(q));
                    }
                },
            },
            Tok::Space => match first_word(q) {
                None => {
                    assert(words_of(fl.line) + words_of(q) =~= words_of(q));
                },
                Some(w) => {
                    if len + 1 + w.len() > max {
                        assert(words_of(fl.line) + words_of(q.skip(1)) =~= words_of(q.skip(1)));
                        assert(words_of(q) == words_of(q.skip(1)));
                    } else {
                        let rec = spec_fill_line(q.skip(1), stack, (len + 1) as nat, max);
                        lemma_fill_words(q.skip(1), stack, (len + 1) as nat, max);
                        lemma_words_concat(seq![Tok::Space], rec.line);
                        assert(seq![Tok::Space].skip(1) =~= Seq::<Tok>::empty());
                        assert(words_of(seq![Tok::Space].skip(1)) =~= Seq::<Tok>::empty());
                        assert(words_of(seq![Tok::Space]) =~= Seq::<Tok>::empty());
                        assert(words_of(fl.line) =~= words_of(rec.line));
                    }
                },
            },
            Tok::Word(w) => {
                let rec = spec_fill_line(q.skip(1), stack, (len + w.len()) as nat, max);
                lemma_fill_words(q.skip(1), stack, (len + w.len()) as nat, max);
                lemma_words_concat(seq![q[0]], rec.line);
                assert(seq![q[0]].skip(1) =~= Seq::<Tok>::empty());
                assert(words_of(seq![q[0]].skip(1)) =~= Seq::<Tok>::empty());
                assert(words_of(seq![q[0]]) =~= seq![q[0]]);
                assert(words_of(fl.line) =~= seq![q[0]] + words_of(rec.line));
                assert((seq![q[0]] + words_of(rec.line)) + words_of(rec.queue) =~= seq![q[0]] + (
                words_of(rec.line) + words_of(rec.queue)));
                assert(words_of(q) =~= seq![q[0]] + words_of(q.skip(1)));
            },
        }
    }
}

proof fn lemma_wrap_loop_words(q: Seq<Tok>, stack: Seq<Seq<char>>, max: nat)
    requires
        spec_wrap_loop(q, stack, max) is Some,
    ensures
        words_of(spec_wrap_loop(q, stack, max)->0.flatten()) == words_of(q),
    decreases q.len(),
{
    if !has_word(q) {
        lemma_no_word_no_words(q);
        assert(Seq::<Seq<Tok>>::empty().flatten() == Seq::<Tok>::empty());
    } else {
        let fl = spec_fill_line(q, stack, 0, max);
        let line = reopen_tags(stack) + fl.line + close_tags(fl.stack);
        let rest = spec_wrap_loop(fl.queue, fl.stack, max)->0;
        let lines = spec_wrap_loop(q, stack, max)->0;
        assert(lines =~= seq![line] + rest);
        lemma_wrap_loop_words(fl.queue, fl.stack, max);
        vstd::seq_lib::lemma_flatten_concat(seq![line], rest);
        seq![line].lemma_flatten_singleton();
        assert(lines.flatten() == line + rest.flatten());
        lemma_words_concat(line, rest.flatten());
        assert forall|i: int| 0 <= i < reopen_tags(stack).len() implies #[trigger] reopen_tags(
            stack,
        )[i] is Tag by {}
        assert forall|i: int| 0 <= i < close_tags(fl.stack).len() implies #[trigger] close_tags(
            fl.stack,
        )[i] is Tag by {}
        lemma_all_tags_no_words(reopen_tags(stack));
        lemma_all_tags_no_words(close_tags(fl.stack));
        lemma_words_concat(reopen_tags(stack) + fl.line, close_tags(fl.stack));
        lemma_words_concat(reopen_tags(stack), fl.line);
        assert(words_of(line) =~= words_of(fl.line));
        lemma_fill_words(q, stack, 0, max);
        assert(words_of(lines.flatten()) =~= words_of(q));
    }
}

/// Truncation law: wrapping drops only spaces and tags. The word tokens on
/// the returned lines, read in order across all lines, are exactly the word
/// tokens of the input.
pub proof fn lemma_wrap_words_preserved(ts: Seq<Tok>, max: nat)
    requires
        spec_wrap(ts, max) is Some,
    ensures
        words_of(spec_wrap(ts, max)->0.flatten()) == words_of(ts),
{
    lemma_wrap_loop_words(ts, Seq::empty(), max);
}

} // verus!
