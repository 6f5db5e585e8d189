//! Player and server names as the game sends them: colour codes, and the
//! display helpers for times and ranks.

use vstd::prelude::*;

use crate::bindings::{spec_utf8_lossy, utf8_lossy};
use crate::text::{append_chars, chars_of, int_chars, int_text, string_of};

verus! {

pub open spec fn is_hex_char(c: char) -> bool {
    ('0' <= c && c <= '9') || ('a' <= c && c <= 'f') || ('A' <= c && c <= 'F')
}

/// The text without colour codes: `^0`..`^9` and `^xRGB` are dropped and
/// `^^` stands for one `^`.
pub open spec fn strip_colors(s: Seq<char>) -> Seq<char>
    decreases s.len(),
{
    if s.len() == 0 {
        s
    } else if s[0] == '^' && s.len() >= 2 && '0' <= s[1] && s[1] <= '9' {
        strip_colors(s.skip(2))
    } else if s[0] == '^' && s.len() >= 5 && s[1] == 'x' && is_hex_char(s[2]) && is_hex_char(s[3])
        && is_hex_char(s[4]) {
        strip_colors(s.skip(5))
    } else if s[0] == '^' && s.len() >= 2 && s[1] == '^' {
        seq!['^'] + strip_colors(s.skip(2))
    } else {
        seq![s[0]] + strip_colors(s.skip(1))
    }
}

/// A name as the list shows it: the bytes decoded as UTF-8 (invalid
/// sequences replaced) without colour codes.
pub open spec fn spec_format_name(b: Seq<u8>) -> Seq<char> {
    strip_colors(spec_utf8_lossy(b))
}

fn hex_char(c: char) -> (r: bool)
    ensures
        r == is_hex_char(c),
{
    ('0' <= c && c <= '9') || ('a' <= c && c <= 'f') || ('A' <= c && c <= 'F')
}

/// The characters without colour codes.
pub fn strip_color_codes(s: &[char]) -> (r: Vec<char>)
    ensures
        r@ == strip_colors(s@),
{
    let n = s.len();
    let mut out: Vec<char> = Vec::new();
    let mut i: usize = 0;
    assert(s@.skip(0) =~= s@);
    while i < n
        invariant
            i <= n == s@.len(),
            out@ + strip_colors(s@.skip(i as int)) == strip_colors(s@),
        decreases n - i,
    {
        let ghost t = s@.skip(i as int);
        let ghost before = out@;
        if s[i] == '^' && n - i >= 2 && '0' <= s[i + 1] && s[i + 1] <= '9' {
            assert(t.skip(2) =~= s@.skip(i + 2));
            i += 2;
        } else if s[i] == '^' && n - i >= 5 && s[i + 1] == 'x' && hex_char(s[i + 2]) && hex_char(
            s[i + 3],
        ) && hex_char(s[i + 4]) {
            assert(t.skip(5) =~= s@.skip(i + 5));
            i += 5;
        } else if s[i] == '^' && n - i >= 2 && s[i + 1] == '^' {
            assert(t.skip(2) =~= s@.skip(i + 2));
            out.push('^');
            i += 2;
            assert(out@ + strip_colors(s@.skip(i as int)) =~= before + strip_colors(t));
        } else {
            assert(t.skip(1) =~= s@.skip(i + 1));
            out.push(s[i]);
            i += 1;
            assert(out@ + strip_colors(s@.skip(i as int)) =~= before + strip_colors(t));
        }
    }
    assert(s@.skip(n as int) =~= Seq::<char>::empty());
    assert(out@ + strip_colors(s@.skip(n as int)) =~= out@);
    out
}

/// A name as the list shows it.
pub fn format_name(b: &[u8]) -> (r: String)
    ensures
        r@ == spec_format_name(b@),
{
    let s = utf8_lossy(b);
    let c = chars_of(s.as_str());
    string_of(&strip_color_codes(&c))
}

/// The first `n` characters of `s`.
pub fn truncate_chars(s: &str, n: usize) -> (r: String)
    ensures
        r@ == (if s@.len() <= n { s@ } else { s@.take(n as int) }),
{
    let c = chars_of(s);
    if c.len() <= n {
        string_of(&c)
    } else {
        let mut v: Vec<char> = Vec::new();
        let mut i: usize = 0;
        while i < n
            invariant
                i <= n < c@.len(),
                v@ == c@.take(i as int),
            decreases n - i,
        {
            v.push(c[i]);
            i += 1;
            assert(v@ =~= c@.take(i as int));
        }
        string_of(&v)
    }
}

/// Two decimal digits, zero-padded (`{:02}` of a number below 100).
pub open spec fn two_digits(n: int) -> Seq<char> {
    if n < 10 {
        seq!['0'] + int_text(n)
    } else {
        int_text(n)
    }
}

/// A race time given in hundredths of a second, as `m:ss.hh`; no time
/// (zero or less) shows as `-`.
pub open spec fn spec_score2time(score: i32) -> Seq<char> {
    if score <= 0 {
        seq!['-']
    } else {
        let s = score as int;
        int_text(s / 6000) + seq![':'] + two_digits((s / 100) % 60) + seq!['.'] + two_digits(s % 100)
    }
}

/// A race time shows the whole minutes, then the seconds and the
/// hundredths, each as two digits: `m:ss.hh` with `m * 6000 + ss * 100 +
/// hh` hundredths, `ss` below 60 and `hh` below 100. No time shows as `-`.
pub proof fn law_score2time(score: i32)
    ensures
        score <= 0 ==> spec_score2time(score) == seq!['-'],
        score > 0 ==> exists|m: int, ss: int, hh: int|
            #![trigger int_text(m), two_digits(ss), two_digits(hh)]
            0 <= m && 0 <= ss < 60 && 0 <= hh < 100 && m * 6000 + ss * 100 + hh == score
                && spec_score2time(score) == int_text(m) + seq![':'] + two_digits(ss) + seq!['.'] + two_digits(hh),
{
    if score > 0 {
        let s = score as int;
        let m = s / 6000;
        let ss = (s / 100) % 60;
        let hh = s % 100;
        assert(m * 6000 + ss * 100 + hh == s) by (nonlinear_arith)
            requires
                s > 0,
                m == s / 6000,
                ss == (s / 100) % 60,
                hh == s % 100,
        ;
        assert(0 <= m && 0 <= ss < 60 && 0 <= hh < 100);
        assert(spec_score2time(score) == int_text(m) + seq![':'] + two_digits(ss) + seq!['.'] + two_digits(hh));
    }
}

pub(crate) fn two_digit_chars(n: i64) -> (r: Vec<char>)
    requires
        0 <= n < 100,
    ensures
        r@ == two_digits(n as int),
{
    let mut v: Vec<char> = Vec::new();
    if n < 10 {
        v.push('0');
    }
    append_chars(&mut v, &int_chars(n));
    assert(v@ =~= two_digits(n as int));
    v
}

/// A race time in hundredths of a second, as the list shows it.
pub fn score2time(score: i32) -> (r: String)
    ensures
        r@ == spec_score2time(score),
{
    let mut v: Vec<char> = Vec::new();
    if score <= 0 {
        v.push('-');
        assert(v@ =~= spec_score2time(score));
        return string_of(&v);
    }
    let s = score as i64;
    append_chars(&mut v, &int_chars(s / 6000));
    v.push(':');
    append_chars(&mut v, &two_digit_chars((s / 100) % 60));
    v.push('.');
    append_chars(&mut v, &two_digit_chars(s % 100));
    assert(v@ =~= spec_score2time(score));
    string_of(&v)
}

/// The English ordinal suffix of a rank.
pub open spec fn ordinal_suffix(n: int) -> Seq<char> {
    let a = if n < 0 { -n } else { n };
    if 11 <= a % 100 && a % 100 <= 13 {
        seq!['t', 'h']
    } else if a % 10 == 1 {
        seq!['s', 't']
    } else if a % 10 == 2 {
        seq!['n', 'd']
    } else if a % 10 == 3 {
        seq!['r', 'd']
    } else {
        seq!['t', 'h']
    }
}

/// A rank with its ordinal suffix: `1st`, `2nd`, `3rd`, `4th`, `11th`, `21st`.
pub open spec fn spec_ordinate(n: i32) -> Seq<char> {
    int_text(n as int) + ordinal_suffix(n as int)
}

/// A rank as the list shows it.
pub fn ordinate(n: i32) -> (r: String)
    ensures
        r@ == spec_ordinate(n),
{
    let mut v = int_chars(n as i64);
    let a: i64 = if n < 0 { -(n as i64) } else { n as i64 };
    if 11 <= a % 100 && a % 100 <= 13 {
        v.push('t');
        v.push('h');
    } else if a % 10 == 1 {
        v.push('s');
        v.push('t');
    } else if a % 10 == 2 {
        v.push('n');
        v.push('d');
    } else if a % 10 == 3 {
        v.push('r');
        v.push('d');
    } else {
        v.push('t');
        v.push('h');
    }
    assert(v@ =~= spec_ordinate(n));
    string_of(&v)
}

} // verus!
