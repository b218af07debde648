use vstd::prelude::*;

verus! {

/// The mathematical model of a token: a word (its characters), an inline
/// markup tag (its name and whether it closes a span), or a single
/// whitespace separator.
pub enum Tok {
    Word(Seq<char>),
    Tag { name: Seq<char>, closing: bool },
    Space,
}

/// One unit of tokenized input text: a maximal run of non-whitespace,
/// non-`<` characters, an inline markup tag, or one whitespace character.
#[derive(Debug, Clone, PartialEq)]
pub enum HtmlToken {
    Word(String),
    HtmlTag { name: String, is_closing: bool },
    Space,
}

impl View for HtmlToken {
    type V = Tok;

    open spec fn view(&self) -> Tok {
        match self {
            HtmlToken::Word(w) => Tok::Word(w@),
            HtmlToken::HtmlTag { name, is_closing } => Tok::Tag {
                name: name@,
                closing: *is_closing,
            },
            HtmlToken::Space => Tok::Space,
        }
    }
}

/// The model of a token sequence.
pub open spec fn toks(ts: Seq<HtmlToken>) -> Seq<Tok> {
    ts.map_values(|t: HtmlToken| t@)
}

/// The Unicode characters with the White_Space property.
pub open spec fn is_ws(c: char) -> bool {
    let u = c as u32;
    (0x9 <= u && u <= 0xd) || u == 0x20 || u == 0x85 || u == 0xa0 || u == 0x1680 || (0x2000
        <= u && u <= 0x200a) || u == 0x2028 || u == 0x2029 || u == 0x202f || u == 0x205f || u
        == 0x3000
}

/// Whether `c` is a whitespace character.
pub fn is_whitespace_char(c: char) -> (r: bool)
    ensures
        r == is_ws(c),
{
    let u = c as u32;
    (0x9 <= u && u <= 0xd) || u == 0x20 || u == 0x85 || u == 0xa0 || u == 0x1680 || (0x2000
        <= u && u <= 0x200a) || u == 0x2028 || u == 0x2029 || u == 0x202f || u == 0x205f || u
        == 0x3000
}

/// The width a token contributes to a line: a word counts its characters,
/// a space counts one, a tag counts nothing.
pub open spec fn tok_width(t: Tok) -> nat {
    match t {
        Tok::Word(w) => w.len(),
        Tok::Space => 1,
        Tok::Tag { .. } => 0,
    }
}

/// The width of a whole line: the sum of its tokens' widths.
pub open spec fn line_width(ts: Seq<Tok>) -> nat
    decreases ts.len(),
{
    if ts.len() == 0 {
        0
    } else {
        tok_width(ts[0]) + line_width(ts.skip(1))
    }
}

/// Copies a token, preserving its model.
pub fn token_copy(t: &HtmlToken) -> (r: HtmlToken)
    ensures
        r@ == t@,
{
    match t {
        HtmlToken::Word(w) => HtmlToken::Word(w.clone()),
        HtmlToken::HtmlTag { name, is_closing } => HtmlToken::HtmlTag {
            name: name.clone(),
            is_closing: *is_closing,
        },
        HtmlToken::Space => HtmlToken::Space,
    }
}

pub proof fn lemma_add_push(a: Seq<Tok>, b: Seq<Tok>, x: Tok)
    ensures
        a + b.push(x) == (a + b).push(x),
{
    assert(a + b.push(x) =~= (a + b).push(x));
}

} // verus!
