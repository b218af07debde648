use vstd::prelude::*;

use crate::hyphen::{hyphenate, spec_hyphenate_tokens};
use crate::serialize::{serialize_slice, spec_serialize};
use crate::tokenizer::{spec_tokenize, tokenize_html};
use crate::tokens::Tok;
use crate::wrap::{lines_view, spec_wrap, wrap_html_tokens};

verus! {

/// The sum of a sequence of offsets.
pub open spec fn sum_offsets(s: Seq<i64>) -> int
    decreases s.len(),
{
    if s.len() == 0 {
        0
    } else {
        s[0] + sum_offsets(s.skip(1))
    }
}

pub proof fn lemma_sum_offsets_push(s: Seq<i64>, x: i64)
    ensures
        sum_offsets(s.push(x)) == sum_offsets(s) + x,
    decreases s.len(),
{
    if s.len() == 0 {
        assert(s.push(x)[0] == x);
        assert(s.push(x).skip(1) =~= Seq::<i64>::empty());
        assert(sum_offsets(s.push(x).skip(1)) == 0);
    } else {
        assert(s.push(x).skip(1) =~= s.skip(1).push(x));
        lemma_sum_offsets_push(s.skip(1), x);
        assert(s.push(x)[0] == s[0]);
    }
}

/// Vertical offsets for a block of `n` lines, in units of half the line
/// height: the first line sits `n - 1` half-steps above the anchor and each
/// further line two half-steps (one full line height) below its
/// predecessor, so the block is centered on the anchor. The offsets sum to
/// `n - 1` half-steps: half a line height times `n - 1`, the block's total
/// downward drift.
pub fn centering_offsets(n: usize) -> (r: Vec<i64>)
    requires
        n as int <= i64::MAX as int,
    ensures
        r@.len() == n,
        n > 0 ==> r@[0] == -((n - 1) as int),
        forall|j: int| 1 <= j < n ==> r@[j] == 2,
        sum_offsets(r@) == if n == 0 {
            0int
        } else {
            (n - 1) as int
        },
{
    let mut r: Vec<i64> = Vec::new();
    proof {
        assert(sum_offsets(r@) == 0);
    }
    if n == 0 {
        return r;
    }
    let first: i64 = -((n - 1) as i64);
    let ghost r0 = r@;
    r.push(first);
    proof {
        lemma_sum_offsets_push(r0, first);
    }
    let mut i: usize = 1;
    while i < n
        invariant
            1 <= i <= n,
            r@.len() == i,
            r@[0] == -((n - 1) as int),
            forall|j: int| 1 <= j < i ==> r@[j] == 2,
            sum_offsets(r@) == -((n - 1) as int) + 2 * (i - 1),
        decreases n - i,
    {
        let ghost rb = r@;
        r.push(2i64);
        proof {
            lemma_sum_offsets_push(rb, 2i64);
        }
        i = i + 1;
    }
    r
}

/// The models of a sequence of runs.
pub open spec fn runs_view(rs: Seq<(String, bool)>) -> Seq<(Seq<char>, bool)> {
    rs.map_values(|p: (String, bool)| (p.0@, p.1))
}

/// A finished run: empty accumulated text produces no run.
pub open spec fn emit_run(cur: Seq<char>, underlined: bool) -> Seq<(Seq<char>, bool)> {
    if cur.len() > 0 {
        seq![(cur, underlined)]
    } else {
        Seq::empty()
    }
}

/// The (text, underlined) runs of a line: a literal `<u>` turns underlining
/// on, a literal `</u>` turns it off, both markers closing the run
/// accumulated in `cur`; every other character extends the current run.
/// Only these two exact markers are recognized.
pub open spec fn spec_underline_runs(s: Seq<char>, underlined: bool, cur: Seq<char>) -> Seq<
    (Seq<char>, bool),
>
    decreases s.len(),
{
    if s.len() >= 3 && s[0] == '<' && s[1] == 'u' && s[2] == '>' {
        emit_run(cur, underlined) + spec_underline_runs(s.skip(3), true, Seq::empty())
    } else if s.len() >= 4 && s[0] == '<' && s[1] == '/' && s[2] == 'u' && s[3] == '>' {
        emit_run(cur, underlined) + spec_underline_runs(s.skip(4), false, Seq::empty())
    } else if s.len() == 0 {
        emit_run(cur, underlined)
    } else {
        spec_underline_runs(s.skip(1), underlined, cur.push(s[0]))
    }
}

/// Splits a serialized line at the literal underline markers into runs of
/// plain and underlined text, as `spec_underline_runs` describes.
pub fn split_underline_runs(line: &str) -> (r: Vec<(String, bool)>)
    ensures
        runs_view(r@) == spec_underline_runs(line@, false, Seq::empty()),
{
    let n = line.unicode_len();
    let mut out: Vec<(String, bool)> = Vec::new();
    let mut j: usize = 0;
    let mut run_start: usize = 0;
    let mut underlined = false;
    proof {
        assert(line@.skip(0) =~= line@);
        assert(line@.subrange(0, 0) =~= Seq::<char>::empty());
        assert(runs_view(out@) =~= Seq::<(Seq<char>, bool)>::empty());
    }
    while j < n
        invariant
            run_start <= j <= n,
            n == line@.len(),
            spec_underline_runs(line@, false, Seq::empty()) == runs_view(out@)
                + spec_underline_runs(
                line@.skip(j as int),
                underlined,
                line@.subrange(run_start as int, j as int),
            ),
        decreases n - j,
    {
        let ghost s = line@.skip(j as int);
        let ghost cur = line@.subrange(run_start as int, j as int);
        proof {
            assert forall|k: int| 0 <= k < s.len() implies s[k] == line@[j + k] by {}
        }
        let open_marker = n - j > 2 && line.get_char(j) == '<' && line.get_char(j + 1) == 'u'
            && line.get_char(j + 2) == '>';
        let close_marker = !open_marker && n - j > 3 && line.get_char(j) == '<' && line.get_char(
            j + 1,
        ) == '/' && line.get_char(j + 2) == 'u' && line.get_char(j + 3) == '>';
        if open_marker || close_marker {
            let ghost out0 = runs_view(out@);
            if j > run_start {
                let text = line.substring_char(run_start, j).to_owned();
                out.push((text, underlined));
                proof {
                    assert(runs_view(out@) =~= out0.push((cur, underlined)));
                }
            }
            proof {
                assert(runs_view(out@) =~= out0 + emit_run(cur, underlined));
            }
            if open_marker {
                proof {
                    assert(s.skip(3) =~= line@.skip(j + 3));
                    assert(spec_underline_runs(s, underlined, cur) == emit_run(cur, underlined)
                        + spec_underline_runs(line@.skip(j + 3), true, Seq::empty()));
                    assert((out0 + emit_run(cur, underlined)) + spec_underline_runs(
                        line@.skip(j + 3),
                        true,
                        Seq::empty(),
                    ) =~= out0 + (emit_run(cur, underlined) + spec_underline_runs(
                        line@.skip(j + 3),
                        true,
                        Seq::empty(),
                    )));
                }
                underlined = true;
                j = j + 3;
            } else {
                proof {
                    assert(s.skip(4) =~= line@.skip(j + 4));
                    assert(spec_underline_runs(s, underlined, cur) == emit_run(cur, underlined)
                        + spec_underline_runs(line@.skip(j + 4), false, Seq::empty()));
                    assert((out0 + emit_run(cur, underlined)) + spec_underline_runs(
                        line@.skip(j + 4),
                        false,
                        Seq::empty(),
                    ) =~= out0 + (emit_run(cur, underlined) + spec_underline_runs(
                        line@.skip(j + 4),
                        false,
                        Seq::empty(),
                    )));
                }
                underlined = false;
                j = j + 4;
            }
            run_start = j;
            proof {
                assert(line@.subrange(j as int, j as int) =~= Seq::<char>::empty());
            }
        } else {
            proof {
                assert(s.len() >= 1);
                assert(!(s.len() >= 3 && s[0] == '<' && s[1] == 'u' && s[2] == '>'));
                assert(!(s.len() >= 4 && s[0] == '<' && s[1] == '/' && s[2] == 'u' && s[3] == '>'));
                assert(s.skip(1) =~= line@.skip(j + 1));
                assert(cur.push(s[0]) =~= line@.subrange(run_start as int, j + 1));
            }
            j = j + 1;
        }
    }
    let ghost cur = line@.subrange(run_start as int, n as int);
    let ghost out0 = runs_view(out@);
    if j > run_start {
        let text = line.substring_char(run_start, n).to_owned();
        out.push((text, underlined));
        proof {
            assert(runs_view(out@) =~= out0.push((cur, underlined)));
        }
    }
    proof {
        assert(line@.skip(n as int).len() == 0);
        assert(spec_underline_runs(line@.skip(n as int), underlined, cur) == emit_run(
            cur,
            underlined,
        ));
        assert(runs_view(out@) =~= out0 + emit_run(cur, underlined));
    }
    out
}

/// The serialized text of each wrapped line.
pub open spec fn serialize_all(ls: Seq<Seq<Tok>>) -> Seq<Seq<char>> {
    ls.map_values(|l: Seq<Tok>| spec_serialize(l))
}

/// The models of a sequence of strings.
pub open spec fn strings_view(ss: Seq<String>) -> Seq<Seq<char>> {
    ss.map_values(|s: String| s@)
}

/// The whole pipeline on a markup string at width `max`: tokenize,
/// hyphenate over-long words, wrap, and serialize each line; no result on a
/// zero width or when wrapping fails.
pub open spec fn spec_layout_lines(s: Seq<char>, max: nat) -> Option<Seq<Seq<char>>> {
    if max == 0 {
        None
    } else {
        match spec_wrap(spec_hyphenate_tokens(spec_tokenize(s), max), max) {
            None => None,
            Some(ls) => Some(serialize_all(ls)),
        }
    }
}

/// Lays a markup string out as serialized lines of at most `max_chars`
/// characters, as `spec_layout_lines` describes; no result exactly when the
/// width is zero or the markup's tags do not balance.
pub fn layout_lines(text: &str, max_chars: usize) -> (r: Option<Vec<String>>)
    ensures
        match r {
            Some(ls) => spec_layout_lines(text@, max_chars as nat) == Some(strings_view(ls@)),
            None => spec_layout_lines(text@, max_chars as nat) is None,
        },
{
    if max_chars == 0 {
        return None;
    }
    let mut tokens = tokenize_html(text);
    hyphenate(&mut tokens, max_chars);
    let wrapped = match wrap_html_tokens(tokens.as_slice(), max_chars) {
        None => {
            return None;
        },
        Some(w) => w,
    };
    let ghost ls = lines_view(wrapped@);
    let mut out: Vec<String> = Vec::new();
    let mut i: usize = 0;
    proof {
        assert(strings_view(out@) =~= serialize_all(ls.take(0)));
    }
    while i < wrapped.len()
        invariant
            i <= wrapped@.len(),
            ls == lines_view(wrapped@),
            strings_view(out@) == serialize_all(ls.take(i as int)),
        decreases wrapped@.len() - i,
    {
        let line = serialize_slice(wrapped[i].as_slice());
        let ghost out0 = out@;
        out.push(line);
        proof {
            assert(ls[i as int] == lines_view(wrapped@)[i as int]);
            assert(ls.take(i + 1) =~= ls.take(i as int).push(ls[i as int]));
            assert(serialize_all(ls.take(i + 1)) =~= serialize_all(ls.take(i as int)).push(
                spec_serialize(ls[i as int]),
            ));
            assert(strings_view(out@) =~= strings_view(out0).push(spec_serialize(ls[i as int])));
        }
        i = i + 1;
    }
    proof {
        assert(ls.take(wrapped@.len() as int) =~= ls);
    }
    Some(out)
}

} // verus!
