//! Contracts for the standard-library and outside-crate calls that the
//! verified code makes. Each item here is believed, not proved.

use vstd::prelude::*;

use crate::text::first_index;

verus! {

/// `String::push` appends one character; its documentation says so.
pub assume_specification[ String::push ](s: &mut String, ch: char)
    ensures
        final(s)@ == old(s)@.push(ch),
;


/// What `String::from_utf8_lossy` makes of some bytes.
pub uninterp spec fn spec_utf8_lossy(bytes: Seq<u8>) -> Seq<char>;

/// `String::from_utf8_lossy`: the bytes decoded as UTF-8, with each invalid
/// sequence replaced by U+FFFD. Valid UTF-8 comes back decoded unchanged.
#[verifier::external_body]
pub(crate) fn utf8_lossy(bytes: &[u8]) -> (s: String)
    ensures
        s@ == spec_utf8_lossy(bytes@),
        vstd::utf8::valid_utf8(bytes@) ==> s@ == vstd::utf8::decode_utf8(bytes@),
{
    String::from_utf8_lossy(bytes).into_owned()
}


/// An ASCII letter in uppercase; any other character unchanged.
pub open spec fn ascii_upper(c: char) -> char {
    if 'a' <= c && c <= 'z' {
        ((c as u32) - 32) as char
    } else {
        c
    }
}

/// An ASCII letter in lowercase; any other character unchanged.
pub open spec fn ascii_lower(c: char) -> char {
    if 'A' <= c && c <= 'Z' {
        ((c as u32) + 32) as char
    } else {
        c
    }
}

/// Every character of `s` is ASCII.
pub open spec fn is_ascii_text(s: Seq<char>) -> bool {
    forall|i: int| 0 <= i < s.len() ==> (#[trigger] s[i] as u32) < 0x80
}

/// What `str::to_uppercase` makes of a text.
pub uninterp spec fn spec_to_upper(s: Seq<char>) -> Seq<char>;

/// A text in uppercase: ASCII text letter by letter, other text as
/// `str::to_uppercase` maps it.
pub open spec fn upper_text(s: Seq<char>) -> Seq<char> {
    if is_ascii_text(s) {
        s.map_values(|c: char| ascii_upper(c))
    } else {
        spec_to_upper(s)
    }
}

/// `str::to_uppercase`: the text with each character replaced by its
/// Unicode uppercase mapping. Unicode maps the ASCII letters `a`-`z` to
/// `A`-`Z` and leaves the other ASCII characters as they are, so ASCII
/// text comes back with its letters uppercased.
#[verifier::external_body]
pub(crate) fn to_upper(s: &str) -> (r: String)
    ensures
        r@ == spec_to_upper(s@),
        is_ascii_text(s@) ==> r@ == s@.map_values(|c: char| ascii_upper(c)),
{
    s.to_uppercase()
}

/// What `str::to_lowercase` makes of a text.
pub uninterp spec fn spec_to_lower(s: Seq<char>) -> Seq<char>;

/// A text in lowercase: ASCII text letter by letter, other text as
/// `str::to_lowercase` maps it.
pub open spec fn lower_text(s: Seq<char>) -> Seq<char> {
    if is_ascii_text(s) {
        s.map_values(|c: char| ascii_lower(c))
    } else {
        spec_to_lower(s)
    }
}

/// `str::to_lowercase`: the text with each character replaced by its
/// Unicode lowercase mapping. Unicode maps the ASCII letters `A`-`Z` to
/// `a`-`z` and leaves the other ASCII characters as they are.
#[verifier::external_body]
pub(crate) fn to_lower(s: &str) -> (r: String)
    ensures
        r@ == spec_to_lower(s@),
        is_ascii_text(s@) ==> r@ == s@.map_values(|c: char| ascii_lower(c)),
{
    s.to_lowercase()
}

/// What `char::to_uppercase` gives for one character.
pub uninterp spec fn spec_char_upper(c: char) -> Seq<char>;

/// A character in uppercase: an ASCII one as itself uppercased, any other
/// as `char::to_uppercase` maps it.
pub open spec fn upper_char(c: char) -> Seq<char> {
    if (c as u32) < 0x80 {
        seq![ascii_upper(c)]
    } else {
        spec_char_upper(c)
    }
}

/// `char::to_uppercase`, collected: the one to three characters of the
/// character's Unicode uppercase mapping; for an ASCII character, the
/// character itself, uppercased when it is a letter.
#[verifier::external_body]
pub(crate) fn char_upper(c: char) -> (r: String)
    ensures
        r@ == spec_char_upper(c),
        (c as u32) < 0x80 ==> r@ == seq![ascii_upper(c)],
{
    c.to_uppercase().collect::<String>()
}

/// The length of the run of ASCII digits at the start of `s`.
pub open spec fn digit_run(s: Seq<char>) -> int
    decreases s.len(),
{
    if s.len() > 0 && '0' <= s[0] && s[0] <= '9' {
        1 + digit_run(s.drop_first())
    } else {
        0
    }
}

/// A match of `(:F[0-9]+:)T[^:]+:` starting at `i`: where the group ends
/// and where the match ends (both exclusive).
pub open spec fn t_field_at(s: Seq<char>, i: int) -> Option<(int, int)> {
    let d = i + 2 + digit_run(s.skip(i + 2));
    let e = d + 2 + first_index(s.skip(d + 2), ':');
    if 0 <= i && i + 2 <= s.len() && s[i] == ':' && s[i + 1] == 'F' && d > i + 2 && d + 2 <= s.len()
        && s[d] == ':' && s[d + 1] == 'T' && e > d + 2 && e < s.len() {
        Some((d + 1, e + 1))
    } else {
        None
    }
}

/// The leftmost match at or after `from`: start, group end, match end.
pub open spec fn first_t_field(s: Seq<char>, from: int) -> Option<(int, int, int)>
    decreases s.len() - from,
{
    if from < 0 || from >= s.len() {
        None
    } else {
        match t_field_at(s, from) {
            Some((g, e)) => Some((from, g, e)),
            None => first_t_field(s, from + 1),
        }
    }
}

/// `s` with its first `:F<digits>:T<text>:` cut down to `:F<digits>:`.
pub open spec fn strip_t_field(s: Seq<char>) -> Seq<char> {
    match first_t_field(s, 0) {
        Some((i, g, e)) => s.take(g) + s.skip(e),
        None => s,
    }
}

pub open spec fn flags_t_pattern() -> Seq<char> {
    "(:F[0-9]+:)T[^:]+:"@
}

/// `Regex::new(pattern).replace(hay, replacement)` for the one pattern the
/// status parser uses: the leftmost match of `(:F[0-9]+:)T[^:]+:` is
/// replaced by its first group; without a match the text is unchanged.
#[verifier::external_body]
pub(crate) fn regex_replace_first(pattern: &str, hay: &str, replacement: &str) -> (r: String)
    requires
        pattern@ == flags_t_pattern(),
        replacement@ == "$1"@,
    ensures
        r@ == strip_t_field(hay@),
{
    regex::Regex::new(pattern).unwrap().replace(hay, replacement).into_owned()
}

} // verus!
