use vstd::prelude::*;

verus! {

/// Whether `c` is `l` or its upper-case ASCII form (`l` given in lower
/// case).
pub open spec fn lower_eq(c: char, l: char) -> bool {
    c == l || c as u32 == l as u32 - 0x20
}

/// Whether a file name already carries a `.pdf` extension: it ends in
/// `.pdf` in any letter case, with at least one character before the dot.
pub open spec fn has_pdf_extension(s: Seq<char>) -> bool {
    s.len() >= 5 && s[s.len() - 4] == '.' && lower_eq(s[s.len() - 3], 'p') && lower_eq(
        s[s.len() - 2],
        'd',
    ) && lower_eq(s[s.len() - 1], 'f')
}

/// Returns the file name with a `.pdf` extension: unchanged when it already
/// ends in `.pdf` of any letter case, with `.pdf` appended otherwise.
pub fn add_pdf_extension(file_name: &str) -> (r: String)
    ensures
        r@ == if has_pdf_extension(file_name@) {
            file_name@
        } else {
            file_name@ + seq!['.', 'p', 'd', 'f']
        },
{
    let n = file_name.unicode_len();
    let mut already = false;
    if n >= 5 {
        let dot = file_name.get_char(n - 4);
        let p = file_name.get_char(n - 3);
        let d = file_name.get_char(n - 2);
        let f = file_name.get_char(n - 1);
        already = dot == '.' && (p == 'p' || p as u32 == 'p' as u32 - 0x20) && (d == 'd' || d
            as u32 == 'd' as u32 - 0x20) && (f == 'f' || f as u32 == 'f' as u32 - 0x20);
    }
    if already {
        file_name.to_owned()
    } else {
        let mut r = file_name.to_owned();
        proof {
            reveal_strlit(".pdf");
            assert(".pdf"@ =~= seq!['.', 'p', 'd', 'f']);
        }
        r.append(".pdf");
        r
    }
}

} // verus!
