use vstd::prelude::*;

verus! {

/// True of the characters that separate words: the Unicode white-space
/// characters.
pub open spec fn is_space(c: char) -> bool {
    c == ' ' || c == '\t' || c == '\n' || c == '\r' || c == '\u{000B}' || c == '\u{000C}'
        || c == '\u{0085}' || c == '\u{00A0}' || c == '\u{1680}' || ('\u{2000}' <= c
        && c <= '\u{200A}') || c == '\u{2028}' || c == '\u{2029}' || c == '\u{202F}' || c
        == '\u{205F}' || c == '\u{3000}'
}

/// ASCII-only case folding of one character: 'A' through 'Z' map to their
/// lowercase forms, every other character (non-ASCII letters included) is
/// left untouched.
pub open spec fn lower_char(c: char) -> char {
    if 'A' <= c && c <= 'Z' {
        ((c as u32) + 32) as char
    } else {
        c
    }
}

/// ASCII-only case folding of a whole sequence of characters.
pub open spec fn lower_seq(s: Seq<char>) -> Seq<char> {
    s.map_values(|c: char| lower_char(c))
}

/// The words a vector of strings holds, as sequences of characters.
pub open spec fn str_views(v: Seq<String>) -> Seq<Seq<char>> {
    v.map_values(|s: String| s@)
}

/// Evidence against proper-noun status: the word is empty or starts with an
/// ASCII lowercase letter or an ASCII digit.
pub open spec fn lower_or_digit_initial(w: Seq<char>) -> bool {
    w.len() == 0 || ('a' <= w[0] && w[0] <= 'z') || ('0' <= w[0] && w[0] <= '9')
}

pub fn is_space_char(c: char) -> (r: bool)
    ensures
        r == is_space(c),
{
    c == ' ' || c == '\t' || c == '\n' || c == '\r' || c == '\u{000B}' || c == '\u{000C}'
        || c == '\u{0085}' || c == '\u{00A0}' || c == '\u{1680}' || ('\u{2000}' <= c
        && c <= '\u{200A}') || c == '\u{2028}' || c == '\u{2029}' || c == '\u{202F}' || c
        == '\u{205F}' || c == '\u{3000}'
}

/// Relies on str::to_ascii_lowercase of std: ASCII uppercase letters are
/// mapped to their lowercase counterparts, all other characters are copied
/// unchanged.
#[verifier::external_body]
pub(crate) fn ascii_lower(s: &str) -> (r: String)
    ensures
        r@ == lower_seq(s@),
{
    s.to_ascii_lowercase()
}

} // verus!
