//! DarkPlaces / dpmaster UDP replies: the master's server list and a game
//! server's `statusResponse`.

use vstd::prelude::*;

use crate::bindings::{spec_utf8_lossy, utf8_lossy};
use crate::text::{
    append_chars, append_str, int_chars, int_text, string_of,
    chars_eq, chars_of, find_byte, first_index, lemma_first_index, lemma_first_index_bounds, parse_i32, pieces_view_u8, spec_parse_i32, split_bytes, split_on, sub_bytes,
};

verus! {

/// A server's address as the master lists it: four (IPv4) or sixteen
/// (IPv6) address bytes, and a port.
#[derive(Clone, Debug)]
pub struct PeerAddr {
    pub ip: Vec<u8>,
    pub port: u16,
}

impl View for PeerAddr {
    type V = (Seq<u8>, u16);

    open spec fn view(&self) -> (Seq<u8>, u16) {
        (self.ip@, self.port)
    }
}

impl PeerAddr {
    /// Whether the address is an IPv4 one.
    pub fn is_ipv4(&self) -> (r: bool)
        ensures
            r == (self.ip@.len() == 4),
    {
        self.ip.len() == 4
    }

    /// A copy of the address.
    pub fn duplicate(&self) -> (r: PeerAddr)
        ensures
            r@ == self@,
    {
        PeerAddr { ip: sub_bytes(&self.ip, 0, self.ip.len()), port: self.port }
    }
}

/// The four-byte packet header `\xff\xff\xff\xff`.
pub open spec fn has_header(b: Seq<u8>) -> bool {
    b.len() >= 4 && b[0] == 0xff && b[1] == 0xff && b[2] == 0xff && b[3] == 0xff
}

/// The packet without its header, if it has one.
pub open spec fn strip_header(b: Seq<u8>) -> Seq<u8> {
    if has_header(b) { b.skip(4) } else { b }
}

pub open spec fn is_entry_mark(c: u8) -> bool {
    c == 0x5c || c == 0x2f
}

/// Index of the first `\` or `/`, or the length when there is none.
pub open spec fn first_entry_mark(d: Seq<u8>) -> int
    decreases d.len(),
{
    if d.len() == 0 {
        0
    } else if is_entry_mark(d[0]) {
        0
    } else {
        1 + first_entry_mark(d.drop_first())
    }
}

pub open spec fn be_u16(hi: u8, lo: u8) -> u16 {
    (hi as int * 256 + lo as int) as u16
}

pub open spec fn is_eot(r: Seq<u8>) -> bool {
    r[0] == 0x45 && r[1] == 0x4f && r[2] == 0x54
}

/// The entries of a `getserversResponse` body, read from its first byte:
/// `\` + 4 address bytes + 2 port bytes (IPv4), `/` + 16 + 2 (IPv6),
/// `\EOT` ends the list; other bytes are skipped. IPv4 entries with port 0,
/// address 0.0.0.0 or 255.255.255.255 and IPv6 entries with port 0 are
/// dropped. The flag says whether the end marker was seen.
pub open spec fn scan_entries(d: Seq<u8>) -> (Seq<(Seq<u8>, u16)>, bool)
    decreases d.len(),
{
    if d.len() == 0 {
        (seq![], false)
    } else if d[0] == 0x5c {
        let r = d.skip(1);
        if r.len() >= 6 && is_eot(r) {
            (seq![], true)
        } else if r.len() < 6 {
            (seq![], false)
        } else {
            let ip = r.take(4);
            let port = be_u16(r[4], r[5]);
            let rest = scan_entries(r.skip(6));
            let unspecified = ip[0] == 0 && ip[1] == 0 && ip[2] == 0 && ip[3] == 0;
            let broadcast = ip[0] == 255 && ip[1] == 255 && ip[2] == 255 && ip[3] == 255;
            if port != 0 && !unspecified && !broadcast {
                (seq![(ip, port)] + rest.0, rest.1)
            } else {
                rest
            }
        }
    } else if d[0] == 0x2f {
        let r = d.skip(1);
        if r.len() < 18 {
            (seq![], false)
        } else {
            let port = be_u16(r[16], r[17]);
            let rest = scan_entries(r.skip(18));
            if port != 0 {
                (seq![(r.take(16), port)] + rest.0, rest.1)
            } else {
                rest
            }
        }
    } else {
        scan_entries(d.skip(1))
    }
}

/// What `parse_getservers_response` reads from a master's reply packet.
pub open spec fn spec_getservers(buf: Seq<u8>) -> (Seq<(Seq<u8>, u16)>, bool) {
    let d = strip_header(buf);
    scan_entries(d.skip(first_entry_mark(d)))
}

/// A listed address a query can go to: an IPv4 address that is neither
/// 0.0.0.0 nor 255.255.255.255, or an IPv6 one, with a port other than 0.
pub open spec fn usable_entry(e: (Seq<u8>, u16)) -> bool {
    e.1 != 0 && (e.0.len() == 16 || (e.0.len() == 4 && !(e.0[0] == 0 && e.0[1] == 0 && e.0[2] == 0
        && e.0[3] == 0) && !(e.0[0] == 255 && e.0[1] == 255 && e.0[2] == 255 && e.0[3] == 255)))
}

proof fn lemma_scan_usable(d: Seq<u8>)
    ensures
        forall|k: int| 0 <= k < scan_entries(d).0.len() ==> usable_entry(#[trigger] scan_entries(d).0[k]),
    decreases d.len(),
{
    if d.len() == 0 {
    } else if d[0] == 0x5c {
        let r = d.skip(1);
        if r.len() >= 6 && !is_eot(r) {
            lemma_scan_usable(r.skip(6));
            let e = scan_entries(d).0;
            let rest = scan_entries(r.skip(6)).0;
            let ip = r.take(4);
            let port = be_u16(r[4], r[5]);
            let unspecified = ip[0] == 0 && ip[1] == 0 && ip[2] == 0 && ip[3] == 0;
            let broadcast = ip[0] == 255 && ip[1] == 255 && ip[2] == 255 && ip[3] == 255;
            assert forall|k: int| 0 <= k < e.len() implies usable_entry(#[trigger] e[k]) by {
                if port != 0 && !unspecified && !broadcast {
                    assert(e == seq![(ip, port)] + rest);
                    if k > 0 {
                        assert(e[k] == rest[k - 1]);
                    } else {
                        assert(e[0] == (ip, port));
                    }
                } else {
                    assert(e == rest);
                }
            }
        }
    } else if d[0] == 0x2f {
        let r = d.skip(1);
        if r.len() >= 18 {
            lemma_scan_usable(r.skip(18));
            let e = scan_entries(d).0;
            let rest = scan_entries(r.skip(18)).0;
            let port = be_u16(r[16], r[17]);
            assert forall|k: int| 0 <= k < e.len() implies usable_entry(#[trigger] e[k]) by {
                if port != 0 {
                    assert(e == seq![(r.take(16), port)] + rest);
                    if k > 0 {
                        assert(e[k] == rest[k - 1]);
                    } else {
                        assert(e[0] == (r.take(16), port));
                    }
                } else {
                    assert(e == rest);
                }
            }
        }
    } else {
        lemma_scan_usable(d.skip(1));
        assert(scan_entries(d) == scan_entries(d.skip(1)));
    }
}

/// Every address read from a master's reply can be queried: IPv4 or IPv6,
/// port not 0, and no 0.0.0.0 or broadcast IPv4 address.
pub proof fn law_master_entries_usable(buf: Seq<u8>)
    ensures
        forall|k: int| 0 <= k < spec_getservers(buf).0.len() ==> usable_entry(#[trigger] spec_getservers(buf).0[k]),
{
    let d = strip_header(buf);
    lemma_scan_usable(d.skip(first_entry_mark(d)));
}

/// How a master lists one server: `\` and 4 address bytes for IPv4, `/`
/// and 16 for IPv6, then the port, high byte first.
pub open spec fn entry_bytes(e: (Seq<u8>, u16)) -> Seq<u8> {
    let mark: u8 = if e.0.len() == 4 {
        0x5c
    } else {
        0x2f
    };
    seq![mark] + e.0 + seq![(e.1 / 256) as u8, (e.1 % 256) as u8]
}

/// The listing of `es`, one entry after the other.
pub open spec fn entries_bytes(es: Seq<(Seq<u8>, u16)>) -> Seq<u8>
    decreases es.len(),
{
    if es.len() == 0 {
        seq![]
    } else {
        entry_bytes(es[0]) + entries_bytes(es.drop_first())
    }
}

/// The end-of-transmission entry that closes a master's list.
pub open spec fn eot_bytes() -> Seq<u8> {
    seq![0x5c, 0x45, 0x4f, 0x54, 0, 0, 0]
}

/// An address a master can list: IPv6, or IPv4 not starting with the bytes
/// of `EOT`, which would read as the end of the list.
pub open spec fn listable_entry(e: (Seq<u8>, u16)) -> bool {
    e.0.len() == 16 || (e.0.len() == 4 && !(e.0[0] == 0x45 && e.0[1] == 0x4f && e.0[2] == 0x54))
}

proof fn lemma_scan_listing(es: Seq<(Seq<u8>, u16)>)
    requires
        forall|k: int| 0 <= k < es.len() ==> listable_entry(#[trigger] es[k]),
    ensures
        scan_entries(entries_bytes(es) + eot_bytes()) == (es.filter(|e: (Seq<u8>, u16)| usable_entry(e)), true),
    decreases es.len(),
{
    let u = |e: (Seq<u8>, u16)| usable_entry(e);
    let d = entries_bytes(es) + eot_bytes();
    if es.len() == 0 {
        assert(d =~= eot_bytes());
        assert(d.skip(1).len() == 6);
        assert(es.filter(u) =~= Seq::<(Seq<u8>, u16)>::empty()) by {
            reveal(Seq::filter);
        }
    } else {
        let e = es[0];
        let t = es.drop_first();
        assert forall|k: int| 0 <= k < t.len() implies listable_entry(#[trigger] t[k]) by {
            assert(t[k] == es[k + 1]);
        }
        lemma_scan_listing(t);
        let rest = entries_bytes(t) + eot_bytes();
        let hi: u8 = (e.1 / 256) as u8;
        let lo: u8 = (e.1 % 256) as u8;
        assert(be_u16(hi, lo) == e.1);
        let r = d.skip(1);
        assert(seq![e] + t =~= es);
        t.lemma_filter_prepend(e, u);
        if e.0.len() == 4 {
            assert(d =~= seq![0x5cu8] + e.0 + seq![hi, lo] + rest);
            assert(r =~= e.0 + seq![hi, lo] + rest);
            assert(r.take(4) =~= e.0);
            assert(r[4] == hi && r[5] == lo);
            assert(r.skip(6) =~= rest);
            assert(!is_eot(r));
        } else {
            assert(d =~= seq![0x2fu8] + e.0 + seq![hi, lo] + rest);
            assert(r =~= e.0 + seq![hi, lo] + rest);
            assert(r.take(16) =~= e.0);
            assert(r[16] == hi && r[17] == lo);
            assert(r.skip(18) =~= rest);
        }
        assert(d =~= entry_bytes(e) + rest);
    }
}

/// Reading back a listing: a packet with the header, any text without `\`
/// or `/`, the entries of `es` and the end marker reads as the entries of
/// `es` that can be queried (see `usable_entry`), in order, with the end
/// marker seen.
pub proof fn law_getservers_round_trip(head: Seq<u8>, es: Seq<(Seq<u8>, u16)>)
    requires
        forall|j: int| 0 <= j < head.len() ==> !is_entry_mark(#[trigger] head[j]),
        forall|k: int| 0 <= k < es.len() ==> listable_entry(#[trigger] es[k]),
    ensures
        spec_getservers(seq![0xffu8, 0xff, 0xff, 0xff] + head + entries_bytes(es) + eot_bytes()) == (
            es.filter(|e: (Seq<u8>, u16)| usable_entry(e)),
            true,
        ),
{
    let buf = seq![0xffu8, 0xff, 0xff, 0xff] + head + entries_bytes(es) + eot_bytes();
    let body = entries_bytes(es) + eot_bytes();
    let d = strip_header(buf);
    assert(d =~= head + body);
    if es.len() == 0 {
        assert(body =~= eot_bytes());
    } else {
        assert(body[0] == entry_bytes(es[0])[0]);
    }
    assert forall|j: int| 0 <= j < head.len() implies !is_entry_mark(#[trigger] d[j]) by {
        assert(d[j] == head[j]);
    }
    assert(is_entry_mark(d[head.len() as int]));
    lemma_first_entry_mark(d, head.len() as int);
    assert(d.skip(head.len() as int) =~= body);
    lemma_scan_listing(es);
}

pub open spec fn addrs_view(v: Seq<PeerAddr>) -> Seq<(Seq<u8>, u16)> {
    v.map_values(|a: PeerAddr| a@)
}

proof fn lemma_first_entry_mark(d: Seq<u8>, i: int)
    requires
        0 <= i <= d.len(),
        forall|j: int| 0 <= j < i ==> !is_entry_mark(#[trigger] d[j]),
        i == d.len() || is_entry_mark(d[i]),
    ensures
        first_entry_mark(d) == i,
    decreases d.len(),
{
    if d.len() > 0 && i > 0 {
        let t = d.drop_first();
        assert forall|j: int| 0 <= j < i - 1 implies !is_entry_mark(#[trigger] t[j]) by {
            assert(t[j] == d[j + 1]);
        }
        lemma_first_entry_mark(t, i - 1);
    }
}

/// Reads a master server's `getserversResponse` packet: the listed servers
/// in packet order, and whether the end-of-transmission marker was seen.
pub fn parse_getservers_response(buf: &[u8]) -> (r: (Vec<PeerAddr>, bool))
    ensures
        (addrs_view(r.0@), r.1) == spec_getservers(buf@),
{
    let n = buf.len();
    let mut start: usize = 0;
    if n >= 4 && buf[0] == 0xff && buf[1] == 0xff && buf[2] == 0xff && buf[3] == 0xff {
        start = 4;
    }
    let ghost d = strip_header(buf@);
    assert(d =~= buf@.skip(start as int));
    let mut k = start;
    while k < n && !(buf[k] == 0x5c || buf[k] == 0x2f)
        invariant
            start <= k <= n == buf@.len(),
            d == buf@.skip(start as int),
            forall|j: int| 0 <= j < k - start ==> !is_entry_mark(#[trigger] d[j]),
        decreases n - k,
    {
        assert(d[k - start] == buf@[k as int]);
        k += 1;
    }
    proof {
        if k < n {
            assert(d[k - start] == buf@[k as int]);
        }
        lemma_first_entry_mark(d, k - start);
    }
    let ghost data = d.skip(first_entry_mark(d));
    assert(data =~= buf@.skip(k as int));
    let mut out: Vec<PeerAddr> = Vec::new();
    let mut eot = false;
    let mut i = k;
    assert(buf@.skip(i as int) =~= data);
    while i < n
        invariant_except_break
            k <= i <= n == buf@.len(),
            data == buf@.skip(k as int),
            buf@.skip(n as int) =~= Seq::<u8>::empty(),
            !eot,
            (addrs_view(out@) + scan_entries(buf@.skip(i as int)).0,
                scan_entries(buf@.skip(i as int)).1) == scan_entries(data),
        ensures
            (addrs_view(out@), eot) == scan_entries(data),
        decreases n - i,
    {
        let ghost cur = buf@.skip(i as int);
        let ghost before = addrs_view(out@);
        if buf[i] == 0x5c {
            let j = i + 1;
            let ghost r = cur.skip(1);
            assert(r =~= buf@.skip(j as int));
            if n - j >= 6 && buf[j] == 0x45 && buf[j + 1] == 0x4f && buf[j + 2] == 0x54 {
                eot = true;
                assert(addrs_view(out@) =~= before + scan_entries(cur).0);
                break;
            }
            if n - j < 6 {
                assert(addrs_view(out@) =~= before + scan_entries(cur).0);
                break;
            }
            let a = buf[j];
            let b = buf[j + 1];
            let c = buf[j + 2];
            let e = buf[j + 3];
            let port: u16 = (buf[j + 4] as u16) * 256 + (buf[j + 5] as u16);
            assert(port == be_u16(r[4], r[5]));
            i = j + 6;
            assert(r.skip(6) =~= buf@.skip(i as int));
            let unspecified = a == 0 && b == 0 && c == 0 && e == 0;
            let broadcast = a == 255 && b == 255 && c == 255 && e == 255;
            if port != 0 && !unspecified && !broadcast {
                let ip = sub_bytes(buf, j, j + 4);
                assert(ip@ =~= r.take(4));
                out.push(PeerAddr { ip, port });
                assert(addrs_view(out@) =~= before.push((r.take(4), port)));
                assert(addrs_view(out@) + scan_entries(buf@.skip(i as int)).0 =~= before + scan_entries(cur).0);
            }
        } else if buf[i] == 0x2f {
            let j = i + 1;
            let ghost r = cur.skip(1);
            assert(r =~= buf@.skip(j as int));
            if n - j < 18 {
                assert(addrs_view(out@) =~= before + scan_entries(cur).0);
                break;
            }
            let port: u16 = (buf[j + 16] as u16) * 256 + (buf[j + 17] as u16);
            assert(port == be_u16(r[16], r[17]));
            i = j + 18;
            assert(r.skip(18) =~= buf@.skip(i as int));
            if port != 0 {
                let ip = sub_bytes(buf, j, j + 16);
                assert(ip@ =~= r.take(16));
                out.push(PeerAddr { ip, port });
                assert(addrs_view(out@) =~= before.push((r.take(16), port)));
                assert(addrs_view(out@) + scan_entries(buf@.skip(i as int)).0 =~= before + scan_entries(cur).0);
            }
        } else {
            i += 1;
            assert(cur.skip(1) =~= buf@.skip(i as int));
        }
    }
    (out, eot)
}


/// `u8::is_ascii_whitespace`: space, tab, line feed, form feed, carriage return.
pub open spec fn is_ascii_ws(b: u8) -> bool {
    b == 0x20 || b == 0x09 || b == 0x0a || b == 0x0c || b == 0x0d
}

/// The bytes without leading ASCII whitespace.
pub open spec fn ltrim(b: Seq<u8>) -> Seq<u8>
    decreases b.len(),
{
    if b.len() > 0 && is_ascii_ws(b[0]) {
        ltrim(b.drop_first())
    } else {
        b
    }
}

/// The bytes without trailing ASCII whitespace.
pub open spec fn rtrim(b: Seq<u8>) -> Seq<u8>
    decreases b.len(),
{
    if b.len() > 0 && is_ascii_ws(b.last()) {
        rtrim(b.drop_last())
    } else {
        b
    }
}

/// Index of the first ASCII whitespace byte, or the length.
pub open spec fn first_ws(b: Seq<u8>) -> int
    decreases b.len(),
{
    if b.len() == 0 {
        0
    } else if is_ascii_ws(b[0]) {
        0
    } else {
        1 + first_ws(b.drop_first())
    }
}

/// A leading run of non-whitespace bytes and what follows it.
pub open spec fn take_token_spec(b: Seq<u8>) -> Option<(Seq<u8>, Seq<u8>)> {
    let end = first_ws(b);
    if b.len() == 0 || end == 0 {
        None
    } else {
        Some((b.take(end), b.skip(end)))
    }
}

/// Bytes read as the characters with the same code (Latin-1). Only ASCII
/// signs and digits can form an integer, so parsing this view of a token
/// agrees with decoding it as UTF-8 first.
pub open spec fn latin1(b: Seq<u8>) -> Seq<char> {
    b.map_values(|x: u8| x as char)
}

/// A leading integer token and what follows it.
pub open spec fn int_token(b: Seq<u8>) -> Option<(i32, Seq<u8>)> {
    match take_token_spec(b) {
        Some((tok, rest)) => match spec_parse_i32(latin1(tok)) {
            Some(v) => Some((v, rest)),
            None => None,
        },
        None => None,
    }
}

/// A player name: the text between the first pair of quotes, the rest of
/// the text after an opening quote without a closing one, or the whole
/// (left-trimmed) text when it does not start with a quote.
pub open spec fn quoted_name(b: Seq<u8>) -> Seq<u8> {
    let t = ltrim(b);
    if t.len() == 0 || t[0] != 0x22 {
        t
    } else {
        let inner = t.skip(1);
        inner.take(first_index(inner, 0x22u8))
    }
}

/// What a player line says, as plain values.
pub struct RawPlayerModel {
    pub score: i32,
    pub ping: i32,
    pub team: i32,
    pub name: Seq<u8>,
}

/// The first token of a player line: the score.
pub open spec fn score_token(line: Seq<u8>) -> Option<(Seq<u8>, Seq<u8>)> {
    take_token_spec(ltrim(rtrim(line)))
}

/// Whether a score token is written with a decimal point (a race time).
pub open spec fn is_decimal_token(tok: Seq<u8>) -> bool {
    tok.contains(0x2eu8)
}

/// A `statusResponse` player line: `score ping [team] "name"`. A score
/// written with a decimal point is read by the caller's converter; `dec`
/// stands for what it gave. Lines that do not fit give nothing.
pub open spec fn spec_player_line(line: Seq<u8>, dec: Option<i32>) -> Option<RawPlayerModel> {
    match score_token(line) {
        None => None,
        Some((tok, rest)) => {
            let score = if is_decimal_token(tok) {
                dec
            } else {
                spec_parse_i32(latin1(tok))
            };
            match score {
                None => None,
                Some(score) => match int_token(ltrim(rest)) {
                    None => None,
                    Some((ping, rest2)) => {
                        let r3 = ltrim(rest2);
                        let team_rest: Option<(i32, Seq<u8>)> = if r3.len() > 0 && r3[0] == 0x22 {
                            Some((0i32, r3))
                        } else {
                            match int_token(r3) {
                                Some((t, r4)) => Some((t, ltrim(r4))),
                                None => None,
                            }
                        };
                        match team_rest {
                            None => None,
                            Some((team, r5)) => Some(
                                RawPlayerModel { score, ping, team, name: quoted_name(r5) },
                            ),
                        }
                    },
                },
            }
        },
    }
}

/// A sign or a digit: the bytes an integer token is made of.
pub open spec fn is_number_byte(b: u8) -> bool {
    b == 0x2d || b == 0x2b || (0x30 <= b && b <= 0x39)
}

proof fn lemma_number_token(tok: Seq<u8>)
    requires
        spec_parse_i32(latin1(tok)) is Some,
    ensures
        tok.len() > 0,
        forall|j: int| 0 <= j < tok.len() ==> is_number_byte(#[trigger] tok[j]),
{
    let s = latin1(tok);
    assert forall|j: int| 0 <= j < tok.len() implies is_number_byte(#[trigger] tok[j]) by {
        assert(s[j] == tok[j] as char);
        if s[0] == '-' || s[0] == '+' {
            if j > 0 {
                assert(s.skip(1)[j - 1] == s[j]);
                assert(crate::text::is_digit(s.skip(1)[j - 1]));
            }
        } else {
            assert(crate::text::is_digit(s[j]));
        }
    }
}

/// An integer token `tok` followed by whitespace and `rest` reads as `tok`
/// and what follows it.
proof fn lemma_number_then_space(tok: Seq<u8>, rest: Seq<u8>)
    requires
        spec_parse_i32(latin1(tok)) is Some,
        rest.len() > 0,
        is_ascii_ws(rest[0]),
    ensures
        ltrim(tok + rest) == tok + rest,
        take_token_spec(tok + rest) == Some((tok, rest)),
        int_token(tok + rest) == Some((spec_parse_i32(latin1(tok))->Some_0, rest)),
{
    lemma_number_token(tok);
    let b = tok + rest;
    assert forall|j: int| 0 <= j < tok.len() implies !is_ascii_ws(#[trigger] b[j]) by {
        assert(b[j] == tok[j]);
        assert(is_number_byte(tok[j]));
    }
    assert(b[tok.len() as int] == rest[0]);
    lemma_first_ws_at(b, tok.len() as int);
    assert(b.take(tok.len() as int) =~= tok);
    assert(b.skip(tok.len() as int) =~= rest);
    assert(b[0] == tok[0]);
    assert(is_number_byte(tok[0]));
}

/// Player lines read back: `score ping team "name"`, with integer tokens
/// for the score (negative ones too), ping and team, one space between
/// them and a name without quotes, reads as that score, ping, team and
/// name, whatever the decimal converter would say.
pub proof fn law_player_line_reads_back(
    tok: Seq<u8>,
    ptok: Seq<u8>,
    ttok: Seq<u8>,
    name: Seq<u8>,
    dec: Option<i32>,
)
    requires
        spec_parse_i32(latin1(tok)) is Some,
        spec_parse_i32(latin1(ptok)) is Some,
        spec_parse_i32(latin1(ttok)) is Some,
        !name.contains(0x22u8),
    ensures
        spec_player_line(
            tok + seq![0x20u8] + ptok + seq![0x20u8] + ttok + seq![0x20u8, 0x22u8] + name + seq![0x22u8],
            dec,
        ) == Some(
            (RawPlayerModel {
                score: spec_parse_i32(latin1(tok))->Some_0,
                ping: spec_parse_i32(latin1(ptok))->Some_0,
                team: spec_parse_i32(latin1(ttok))->Some_0,
                name,
            }),
        ),
{
    let q = seq![0x22u8] + name + seq![0x22u8];
    let r4 = seq![0x20u8] + q;
    let r2 = seq![0x20u8] + ttok + r4;
    let rest = seq![0x20u8] + ptok + r2;
    let line = tok + seq![0x20u8] + ptok + seq![0x20u8] + ttok + seq![0x20u8, 0x22u8] + name + seq![0x22u8];
    assert(line =~= tok + rest);
    assert(line.last() == 0x22u8);
    assert(rtrim(line) == line);
    lemma_number_then_space(tok, rest);
    assert(score_token(line) == Some((tok, rest)));
    lemma_number_token(tok);
    assert(!tok.contains(0x2eu8)) by {
        if tok.contains(0x2eu8) {
            let j = choose|j: int| 0 <= j < tok.len() && tok[j] == 0x2eu8;
            assert(is_number_byte(tok[j]));
        }
    }
    assert(rest.drop_first() =~= ptok + r2);
    lemma_number_then_space(ptok, r2);
    assert(ltrim(rest) == ptok + r2);
    assert(r2.drop_first() =~= ttok + r4);
    lemma_number_then_space(ttok, r4);
    assert(ltrim(r2) == ttok + r4);
    lemma_number_token(ttok);
    assert((ttok + r4)[0] == ttok[0]);
    assert(is_number_byte(ttok[0]));
    assert(r4.drop_first() =~= q);
    assert(ltrim(q) == q);
    assert(ltrim(r4) == q);
    let inner = q.skip(1);
    assert(inner =~= name + seq![0x22u8]);
    assert forall|j: int| 0 <= j < name.len() implies inner[j] != 0x22u8 by {
        assert(inner[j] == name[j]);
    }
    lemma_first_index(inner, 0x22u8, name.len() as int);
    assert(inner.take(name.len() as int) =~= name);
}

/// A token of bytes that are not whitespace, followed by whitespace and
/// `rest`, is the line's first token.
proof fn lemma_token_then_space(tok: Seq<u8>, rest: Seq<u8>)
    requires
        tok.len() > 0,
        forall|j: int| 0 <= j < tok.len() ==> !is_ascii_ws(#[trigger] tok[j]),
        rest.len() > 0,
        is_ascii_ws(rest[0]),
    ensures
        ltrim(tok + rest) == tok + rest,
        take_token_spec(tok + rest) == Some((tok, rest)),
{
    let b = tok + rest;
    assert forall|j: int| 0 <= j < tok.len() implies !is_ascii_ws(#[trigger] b[j]) by {
        assert(b[j] == tok[j]);
    }
    assert(b[tok.len() as int] == rest[0]);
    lemma_first_ws_at(b, tok.len() as int);
    assert(b.take(tok.len() as int) =~= tok);
    assert(b.skip(tok.len() as int) =~= rest);
    assert(b[0] == tok[0]);
}

/// The team may be left out: `score ping "name"`, with integer tokens for
/// the score and ping and a name without quotes, reads as that score,
/// ping and name, in team 0.
pub proof fn law_player_line_without_team(tok: Seq<u8>, ptok: Seq<u8>, name: Seq<u8>, dec: Option<i32>)
    requires
        spec_parse_i32(latin1(tok)) is Some,
        spec_parse_i32(latin1(ptok)) is Some,
        !name.contains(0x22u8),
    ensures
        spec_player_line(tok + seq![0x20u8] + ptok + seq![0x20u8, 0x22u8] + name + seq![0x22u8], dec) == Some(
            (RawPlayerModel {
                score: spec_parse_i32(latin1(tok))->Some_0,
                ping: spec_parse_i32(latin1(ptok))->Some_0,
                team: 0,
                name,
            }),
        ),
{
    let q = seq![0x22u8] + name + seq![0x22u8];
    let r2 = seq![0x20u8] + q;
    let rest = seq![0x20u8] + ptok + r2;
    let line = tok + seq![0x20u8] + ptok + seq![0x20u8, 0x22u8] + name + seq![0x22u8];
    assert(line =~= tok + rest);
    assert(line.last() == 0x22u8);
    assert(rtrim(line) == line);
    lemma_number_then_space(tok, rest);
    lemma_number_token(tok);
    assert(!tok.contains(0x2eu8)) by {
        if tok.contains(0x2eu8) {
            let j = choose|j: int| 0 <= j < tok.len() && tok[j] == 0x2eu8;
            assert(is_number_byte(tok[j]));
        }
    }
    assert(rest.drop_first() =~= ptok + r2);
    lemma_number_then_space(ptok, r2);
    assert(ltrim(rest) == ptok + r2);
    assert(r2.drop_first() =~= q);
    assert(ltrim(q) == q);
    assert(ltrim(r2) == q);
    let inner = q.skip(1);
    assert(inner =~= name + seq![0x22u8]);
    assert forall|j: int| 0 <= j < name.len() implies inner[j] != 0x22u8 by {
        assert(inner[j] == name[j]);
    }
    lemma_first_index(inner, 0x22u8, name.len() as int);
    assert(inner.take(name.len() as int) =~= name);
}

/// A score written with a decimal point (a race time) is what the
/// caller's converter makes of it: `time ping team "name"` reads with the
/// converted score, and not at all when the converter gives nothing.
pub proof fn law_player_line_decimal_score(
    tok: Seq<u8>,
    ptok: Seq<u8>,
    ttok: Seq<u8>,
    name: Seq<u8>,
    dec: Option<i32>,
)
    requires
        tok.contains(0x2eu8),
        forall|j: int| 0 <= j < tok.len() ==> !is_ascii_ws(#[trigger] tok[j]),
        spec_parse_i32(latin1(ptok)) is Some,
        spec_parse_i32(latin1(ttok)) is Some,
        !name.contains(0x22u8),
    ensures
        spec_player_line(
            tok + seq![0x20u8] + ptok + seq![0x20u8] + ttok + seq![0x20u8, 0x22u8] + name + seq![0x22u8],
            dec,
        ) == match dec {
            Some(d) => Some(
                (RawPlayerModel {
                    score: d,
                    ping: spec_parse_i32(latin1(ptok))->Some_0,
                    team: spec_parse_i32(latin1(ttok))->Some_0,
                    name,
                }),
            ),
            None => None,
        },
{
    let q = seq![0x22u8] + name + seq![0x22u8];
    let r4 = seq![0x20u8] + q;
    let r2 = seq![0x20u8] + ttok + r4;
    let rest = seq![0x20u8] + ptok + r2;
    let line = tok + seq![0x20u8] + ptok + seq![0x20u8] + ttok + seq![0x20u8, 0x22u8] + name + seq![0x22u8];
    assert(line =~= tok + rest);
    assert(line.last() == 0x22u8);
    assert(rtrim(line) == line);
    lemma_token_then_space(tok, rest);
    assert(rest.drop_first() =~= ptok + r2);
    lemma_number_then_space(ptok, r2);
    assert(ltrim(rest) == ptok + r2);
    assert(r2.drop_first() =~= ttok + r4);
    lemma_number_then_space(ttok, r4);
    assert(ltrim(r2) == ttok + r4);
    lemma_number_token(ttok);
    assert((ttok + r4)[0] == ttok[0]);
    assert(is_number_byte(ttok[0]));
    assert(r4.drop_first() =~= q);
    assert(ltrim(q) == q);
    assert(ltrim(r4) == q);
    let inner = q.skip(1);
    assert(inner =~= name + seq![0x22u8]);
    assert forall|j: int| 0 <= j < name.len() implies inner[j] != 0x22u8 by {
        assert(inner[j] == name[j]);
    }
    lemma_first_index(inner, 0x22u8, name.len() as int);
    assert(inner.take(name.len() as int) =~= name);
}

/// A player of a status reply.
#[derive(Debug)]
pub struct RawPlayer {
    pub score: i32,
    pub ping: i32,
    pub team: i32,
    pub name: Vec<u8>,
}

impl View for RawPlayer {
    type V = RawPlayerModel;

    open spec fn view(&self) -> RawPlayerModel {
        RawPlayerModel { score: self.score, ping: self.ping, team: self.team, name: self.name@ }
    }
}

pub open spec fn opt_player_view(p: Option<RawPlayer>) -> Option<RawPlayerModel> {
    match p {
        Some(p) => Some(p@),
        None => None,
    }
}

/// `d` is a value the converter `f` can give for the decimal token `tok`.
pub open spec fn decimal_from<F: Fn(Vec<u8>) -> Option<i32>>(f: F, tok: Seq<u8>, d: Option<i32>) -> bool {
    exists|v: Vec<u8>| v@ == tok && #[trigger] call_ensures(f, (v,), d)
}

/// `d` is what the score of `line` was read with: the converter's answer
/// for a decimal score token, nothing otherwise.
pub open spec fn line_outcome<F: Fn(Vec<u8>) -> Option<i32>>(f: F, line: Seq<u8>, d: Option<i32>) -> bool {
    match score_token(line) {
        Some((tok, _)) => if is_decimal_token(tok) {
            decimal_from(f, tok, d)
        } else {
            d is None
        },
        None => d is None,
    }
}

pub open spec fn converter_total<F: Fn(Vec<u8>) -> Option<i32>>(f: F) -> bool {
    forall|v: Vec<u8>| #[trigger] call_requires(f, (v,))
}

proof fn lemma_ltrim_suffix(b: Seq<u8>)
    ensures
        ltrim(b).len() <= b.len(),
        ltrim(b) == b.skip(b.len() - ltrim(b).len()),
        forall|j: int| 0 <= j < b.len() - ltrim(b).len() ==> is_ascii_ws(#[trigger] b[j]),
        ltrim(b).len() > 0 ==> !is_ascii_ws(ltrim(b)[0]),
    decreases b.len(),
{
    if b.len() > 0 && is_ascii_ws(b[0]) {
        let t = b.drop_first();
        lemma_ltrim_suffix(t);
        assert(t.skip(t.len() - ltrim(t).len()) =~= b.skip(b.len() - ltrim(b).len()));
        assert forall|j: int| 0 <= j < b.len() - ltrim(b).len() implies is_ascii_ws(#[trigger] b[j]) by {
            if j > 0 {
                assert(b[j] == t[j - 1]);
            }
        }
    } else {
        assert(b.skip(0) =~= b);
    }
}

proof fn lemma_ltrim_at(b: Seq<u8>, i: int)
    requires
        0 <= i <= b.len(),
        forall|j: int| 0 <= j < i ==> is_ascii_ws(#[trigger] b[j]),
        i == b.len() || !is_ascii_ws(b[i]),
    ensures
        ltrim(b) == b.skip(i),
    decreases b.len(),
{
    if i == 0 {
        assert(b.skip(0) =~= b);
    } else {
        let t = b.drop_first();
        assert forall|j: int| 0 <= j < i - 1 implies is_ascii_ws(#[trigger] t[j]) by {
            assert(t[j] == b[j + 1]);
        }
        lemma_ltrim_at(t, i - 1);
        assert(t.skip(i - 1) =~= b.skip(i));
    }
}

proof fn lemma_rtrim_at(b: Seq<u8>, i: int)
    requires
        0 <= i <= b.len(),
        forall|j: int| i <= j < b.len() ==> is_ascii_ws(#[trigger] b[j]),
        i == 0 || !is_ascii_ws(b[i - 1]),
    ensures
        rtrim(b) == b.take(i),
    decreases b.len(),
{
    if i == b.len() {
        assert(b.take(i) =~= b);
    } else {
        let t = b.drop_last();
        assert forall|j: int| i <= j < t.len() implies is_ascii_ws(#[trigger] t[j]) by {
            assert(t[j] == b[j]);
        }
        lemma_rtrim_at(t, i);
        assert(t.take(i) =~= b.take(i));
    }
}

proof fn lemma_first_ws_at(b: Seq<u8>, i: int)
    requires
        0 <= i <= b.len(),
        forall|j: int| 0 <= j < i ==> !is_ascii_ws(#[trigger] b[j]),
        i == b.len() || is_ascii_ws(b[i]),
    ensures
        first_ws(b) == i,
    decreases b.len(),
{
    if i > 0 {
        let t = b.drop_first();
        assert forall|j: int| 0 <= j < i - 1 implies !is_ascii_ws(#[trigger] t[j]) by {
            assert(t[j] == b[j + 1]);
        }
        lemma_first_ws_at(t, i - 1);
    }
}

fn ascii_ws(b: u8) -> (r: bool)
    ensures
        r == is_ascii_ws(b),
{
    b == 0x20 || b == 0x09 || b == 0x0a || b == 0x0c || b == 0x0d
}

/// The bytes without leading ASCII whitespace.
pub fn trim_start(buf: &[u8]) -> (r: &[u8])
    ensures
        r@ == ltrim(buf@),
{
    let mut i: usize = 0;
    while i < buf.len() && ascii_ws(buf[i])
        invariant
            i <= buf.len(),
            forall|j: int| 0 <= j < i ==> is_ascii_ws(#[trigger] buf@[j]),
        decreases buf.len() - i,
    {
        i += 1;
    }
    proof { lemma_ltrim_at(buf@, i as int); }
    &buf[i..buf.len()]
}

/// The bytes without trailing ASCII whitespace.
pub fn trim_end(buf: &[u8]) -> (r: &[u8])
    ensures
        r@ == rtrim(buf@),
{
    let mut i: usize = buf.len();
    while i > 0 && ascii_ws(buf[i - 1])
        invariant
            i <= buf.len(),
            forall|j: int| i <= j < buf.len() ==> is_ascii_ws(#[trigger] buf@[j]),
        decreases i,
    {
        i -= 1;
    }
    proof { lemma_rtrim_at(buf@, i as int); }
    &buf[0..i]
}

/// The bytes without leading and trailing ASCII whitespace.
pub fn trim(buf: &[u8]) -> (r: &[u8])
    ensures
        r@ == ltrim(rtrim(buf@)),
{
    trim_start(trim_end(buf))
}

/// Splits off a leading run of non-whitespace bytes.
pub fn take_token(buf: &[u8]) -> (r: Option<(&[u8], &[u8])>)
    ensures
        match r {
            Some((a, b)) => take_token_spec(buf@) == Some((a@, b@)),
            None => take_token_spec(buf@) is None,
        },
{
    if buf.len() == 0 {
        return None;
    }
    let mut end: usize = 0;
    while end < buf.len() && !ascii_ws(buf[end])
        invariant
            end <= buf.len(),
            forall|j: int| 0 <= j < end ==> !is_ascii_ws(#[trigger] buf@[j]),
        decreases buf.len() - end,
    {
        end += 1;
    }
    proof { lemma_first_ws_at(buf@, end as int); }
    if end == 0 {
        return None;
    }
    Some((&buf[0..end], &buf[end..buf.len()]))
}

fn latin1_chars(b: &[u8]) -> (r: Vec<char>)
    ensures
        r@ == latin1(b@),
{
    let mut r: Vec<char> = Vec::new();
    let mut i: usize = 0;
    while i < b.len()
        invariant
            i <= b.len(),
            r@ == latin1(b@.take(i as int)),
        decreases b.len() - i,
    {
        r.push(b[i] as char);
        i += 1;
        assert(r@ =~= latin1(b@.take(i as int)));
    }
    assert(b@.take(b.len() as int) =~= b@);
    r
}

/// Reads a leading integer token (`str::parse::<i32>()` of the token).
pub fn parse_int_token(buf: &[u8]) -> (r: Option<(i32, &[u8])>)
    ensures
        match r {
            Some((v, rest)) => int_token(buf@) == Some((v, rest@)),
            None => int_token(buf@) is None,
        },
{
    let (tok, rest) = take_token(buf)?;
    let n = parse_i32(&latin1_chars(tok))?;
    Some((n, rest))
}

fn has_dot(tok: &[u8]) -> (r: bool)
    ensures
        r == is_decimal_token(tok@),
{
    let mut i: usize = 0;
    while i < tok.len()
        invariant
            i <= tok.len(),
            forall|j: int| 0 <= j < i ==> tok@[j] != 0x2eu8,
        decreases tok.len() - i,
    {
        if tok[i] == 0x2e {
            assert(tok@[i as int] == 0x2eu8);
            return true;
        }
        i += 1;
    }
    false
}

/// The name part of a player line.
pub fn parse_quoted(buf: &[u8]) -> (r: Option<Vec<u8>>)
    ensures
        r matches Some(v) && v@ == quoted_name(buf@),
{
    let t = trim_start(buf);
    if t.len() == 0 || t[0] != 0x22 {
        return Some(sub_bytes(t, 0, t.len()));
    }
    let inner = &t[1..t.len()];
    assert(inner@ =~= t@.skip(1));
    let end = find_byte(inner, 0x22);
    proof { lemma_first_index_bounds(inner@, 0x22u8); }
    let v = sub_bytes(inner, 0, end);
    assert(v@ =~= inner@.take(end as int));
    Some(v)
}

/// Reads one player line of a status reply. A score written with a decimal
/// point (a race time) is handed to `centi`, which gives it in hundredths.
pub fn parse_player_line<F: Fn(Vec<u8>) -> Option<i32>>(line: &[u8], centi: &F) -> (r: Option<RawPlayer>)
    requires
        converter_total(*centi),
    ensures
        exists|d: Option<i32>| line_outcome(*centi, line@, d)
            && opt_player_view(r) == spec_player_line(line@, d),
{
    let t = trim(line);
    let tk = take_token(t);
    let (tok, rest) = match tk {
        Some(p) => p,
        None => {
            assert(line_outcome(*centi, line@, None));
            assert(opt_player_view(None) == spec_player_line(line@, None));
            return None;
        },
    };
    let ghost mut d: Option<i32> = None;
    let score = if has_dot(tok) {
        let v = sub_bytes(tok, 0, tok.len());
        assert(v@ =~= tok@);
        let s = centi(v);
        proof {
            d = s;
            assert(decimal_from(*centi, tok@, s));
        }
        s
    } else {
        parse_i32(&latin1_chars(tok))
    };
    assert(line_outcome(*centi, line@, d));
    let score = match score {
        Some(s) => s,
        None => return None,
    };
    let rest = trim_start(rest);
    let (ping, rest) = match parse_int_token(rest) {
        Some(p) => p,
        None => return None,
    };
    let rest = trim_start(rest);
    let (team, rest) = if rest.len() > 0 && rest[0] == 0x22 {
        (0i32, rest)
    } else {
        match parse_int_token(rest) {
            Some((t, r)) => (t, trim_start(r)),
            None => return None,
        }
    };
    let name = match parse_quoted(rest) {
        Some(n) => n,
        None => return None,
    };
    let r = Some(RawPlayer { score, ping, team, name });
    assert(opt_player_view(r) == spec_player_line(line@, d));
    r
}


/// The rules of a status reply: each key (the key bytes decoded as UTF-8,
/// invalid sequences replaced) with the last value given for it.
pub struct Rules {
    entries: Vec<(Vec<char>, Vec<u8>)>,
}

pub open spec fn entries_map(e: Seq<(Vec<char>, Vec<u8>)>) -> Map<Seq<char>, Seq<u8>>
    decreases e.len(),
{
    if e.len() == 0 {
        Map::empty()
    } else {
        entries_map(e.drop_last()).insert(e.last().0@, e.last().1@)
    }
}

pub open spec fn distinct_keys(e: Seq<(Vec<char>, Vec<u8>)>) -> bool {
    forall|i: int, j: int| 0 <= i < j < e.len() ==> #[trigger] e[i].0@ != #[trigger] e[j].0@
}

proof fn lemma_entries_dom(e: Seq<(Vec<char>, Vec<u8>)>, k: Seq<char>)
    ensures
        entries_map(e).contains_key(k) <==> exists|i: int| 0 <= i < e.len() && #[trigger] e[i].0@ == k,
    decreases e.len(),
{
    if e.len() > 0 {
        let d = e.drop_last();
        lemma_entries_dom(d, k);
        if entries_map(e).contains_key(k) && e.last().0@ != k {
            let i = choose|i: int| 0 <= i < d.len() && #[trigger] d[i].0@ == k;
            assert(e[i].0@ == k);
        }
        if exists|i: int| 0 <= i < e.len() && #[trigger] e[i].0@ == k {
            let i = choose|i: int| 0 <= i < e.len() && #[trigger] e[i].0@ == k;
            if i < e.len() - 1 {
                assert(d[i].0@ == k);
            }
        }
    }
}

proof fn lemma_entries_at(e: Seq<(Vec<char>, Vec<u8>)>, i: int)
    requires
        distinct_keys(e),
        0 <= i < e.len(),
    ensures
        entries_map(e).contains_key(e[i].0@),
        entries_map(e)[e[i].0@] == e[i].1@,
    decreases e.len(),
{
    if i < e.len() - 1 {
        let d = e.drop_last();
        assert(d[i] == e[i]);
        assert(distinct_keys(d));
        lemma_entries_at(d, i);
        assert(e[i].0@ != e[e.len() - 1].0@);
    }
}

proof fn lemma_entries_update(e: Seq<(Vec<char>, Vec<u8>)>, j: int, v: Vec<u8>)
    requires
        distinct_keys(e),
        0 <= j < e.len(),
    ensures
        entries_map(e.update(j, (e[j].0, v))) == entries_map(e).insert(e[j].0@, v@),
        distinct_keys(e.update(j, (e[j].0, v))),
    decreases e.len(),
{
    let u = e.update(j, (e[j].0, v));
    let k = e[j].0@;
    if j == e.len() - 1 {
        assert(u.drop_last() =~= e.drop_last());
        assert(entries_map(u) =~= entries_map(e).insert(k, v@));
    } else {
        let d = e.drop_last();
        assert(distinct_keys(d));
        assert(d[j] == e[j]);
        lemma_entries_update(d, j, v);
        assert(u.drop_last() =~= d.update(j, (d[j].0, v)));
        assert(e.last().0@ != k);
        assert(entries_map(u) =~= entries_map(e).insert(k, v@));
    }
}

impl Rules {
    #[verifier::type_invariant]
    spec fn keys_distinct(self) -> bool {
        distinct_keys(self.entries@)
    }

    /// A rule set with no keys.
    pub fn new() -> (r: Rules)
        ensures
            r@ == Map::<Seq<char>, Seq<u8>>::empty(),
    {
        Rules { entries: Vec::new() }
    }

    /// Sets `key` to `value`, replacing an earlier value.
    pub fn insert(&mut self, key: Vec<char>, value: Vec<u8>)
        ensures
            final(self)@ == old(self)@.insert(key@, value@),
    {
        proof { use_type_invariant(&*self); }
        let mut e: Vec<(Vec<char>, Vec<u8>)> = Vec::new();
        std::mem::swap(&mut e, &mut self.entries);
        let ghost e0 = e@;
        let mut i: usize = 0;
        while i < e.len()
            invariant
                e@ == e0,
                old(self)@ == entries_map(e0),
                distinct_keys(e0),
                i <= e.len(),
                forall|j: int| 0 <= j < i ==> (#[trigger] e0[j]).0@ != key@,
            decreases e.len() - i,
        {
            if chars_eq(&e[i].0, &key) {
                let (k, _old) = e.remove(i);
                assert(k@ == e0[i as int].0@);
                e.insert(i, (k, value));
                proof {
                    assert(e@ =~= e0.update(i as int, (e0[i as int].0, value)));
                    lemma_entries_update(e0, i as int, value);
                }
                self.entries = e;
                return;
            }
            i += 1;
        }
        let ghost kk = key@;
        let ghost vv = value@;
        e.push((key, value));
        proof {
            assert(e@.drop_last() =~= e0);
            assert(distinct_keys(e@));
        }
        self.entries = e;
    }

    /// The value of `key`, if the reply gave one.
    pub fn get(&self, key: &str) -> (r: Option<&Vec<u8>>)
        ensures
            match r {
                Some(v) => self@.contains_key(key@) && v@ == self@[key@],
                None => !self@.contains_key(key@),
            },
    {
        proof { use_type_invariant(self); }
        let kc = chars_of(key);
        let mut i: usize = 0;
        while i < self.entries.len()
            invariant
                distinct_keys(self.entries@),
                i <= self.entries.len(),
                kc@ == key@,
                forall|j: int| 0 <= j < i ==> (#[trigger] self.entries@[j]).0@ != key@,
            decreases self.entries.len() - i,
        {
            if chars_eq(&self.entries[i].0, &kc) {
                proof { lemma_entries_at(self.entries@, i as int); }
                return Some(&self.entries[i].1);
            }
            i += 1;
        }
        proof { lemma_entries_dom(self.entries@, key@); }
        None
    }
}

impl View for Rules {
    type V = Map<Seq<char>, Seq<u8>>;

    closed spec fn view(&self) -> Map<Seq<char>, Seq<u8>> {
        entries_map(self.entries@)
    }
}

/// The `\`-separated pieces of an info string (one leading `\` dropped).
pub open spec fn info_parts(buf: Seq<u8>) -> Seq<Seq<u8>> {
    split_on(if buf.len() > 0 && buf[0] == 0x5c { buf.skip(1) } else { buf }, 0x5cu8)
}

/// The map made of the first `k` key/value pairs of the pieces.
pub open spec fn pairs_map(parts: Seq<Seq<u8>>, k: nat) -> Map<Seq<char>, Seq<u8>>
    decreases k,
{
    if k == 0 {
        Map::empty()
    } else {
        pairs_map(parts, (k - 1) as nat).insert(
            spec_utf8_lossy(parts[2 * k - 2]),
            parts[2 * k - 1],
        )
    }
}

/// The rules of an info string `\key\value\key\value...`; a key without a
/// value at the end is dropped and a repeated key keeps its last value.
pub open spec fn spec_infostring(buf: Seq<u8>) -> Map<Seq<char>, Seq<u8>> {
    pairs_map(info_parts(buf), info_parts(buf).len() / 2)
}

/// Reads an info string into its rules.
pub fn parse_infostring(buf: &[u8]) -> (r: Rules)
    ensures
        r@ == spec_infostring(buf@),
{
    let s: &[u8] = if buf.len() > 0 && buf[0] == 0x5c { &buf[1..buf.len()] } else { buf };
    assert(s@ =~= (if buf@.len() > 0 && buf@[0] == 0x5c { buf@.skip(1) } else { buf@ }));
    let parts = split_bytes(s, 0x5c);
    let ghost pv = pieces_view_u8(parts@);
    let mut map = Rules::new();
    let mut i: usize = 0;
    while i + 1 < parts.len()
        invariant
            pv == pieces_view_u8(parts@),
            pv == info_parts(buf@),
            i % 2 == 0,
            i <= parts.len(),
            map@ == pairs_map(pv, (i / 2) as nat),
        decreases parts.len() - i,
    {
        let k = utf8_lossy(&parts[i]);
        let kc = chars_of(k.as_str());
        let v = sub_bytes(&parts[i + 1], 0, parts[i + 1].len());
        assert(v@ =~= parts@[i + 1]@);
        map.insert(kc, v);
        i += 2;
        assert(map@ == pairs_map(pv, (i / 2) as nat));
    }
    assert(i / 2 == pv.len() / 2);
    map
}

/// A game server's reply to `getstatus`.
pub struct RawStatus {
    pub address: PeerAddr,
    pub rules: Rules,
    pub players: Vec<RawPlayer>,
}

pub struct RawStatusModel {
    pub address: (Seq<u8>, u16),
    pub rules: Map<Seq<char>, Seq<u8>>,
    pub players: Seq<RawPlayerModel>,
}

impl View for RawStatus {
    type V = RawStatusModel;

    open spec fn view(&self) -> RawStatusModel {
        RawStatusModel {
            address: self.address@,
            rules: self.rules@,
            players: players_view(self.players@),
        }
    }
}

pub open spec fn players_view(p: Seq<RawPlayer>) -> Seq<RawPlayerModel> {
    p.map_values(|x: RawPlayer| x@)
}

pub open spec fn has_status_word(cmd: Seq<u8>) -> bool {
    cmd.len() >= 14 && cmd.take(14) == seq![
        0x73u8, 0x74, 0x61, 0x74, 0x75, 0x73, 0x52, 0x65, 0x73, 0x70, 0x6f, 0x6e, 0x73, 0x65,
    ]
}

/// The body of a status reply (after its header and `statusResponse` line),
/// or nothing when the packet is not one.
pub open spec fn status_body(buf: Seq<u8>) -> Option<Seq<u8>> {
    let data = strip_header(buf);
    let nl = first_index(data, 0x0au8);
    if nl >= data.len() {
        None
    } else if !has_status_word(data.take(nl)) {
        None
    } else {
        Some(data.skip(nl + 1))
    }
}

/// The info-string line of a status body.
pub open spec fn status_info(body: Seq<u8>) -> Seq<u8> {
    body.take(first_index(body, 0x0au8))
}

/// The lines after the info string (none when there is no line break).
pub open spec fn status_lines(body: Seq<u8>) -> Seq<Seq<u8>> {
    let ie = first_index(body, 0x0au8);
    if ie < body.len() {
        split_on(body.skip(ie + 1), 0x0au8)
    } else {
        seq![]
    }
}

/// `ps` are the players read from `lines`, in order: empty lines are
/// skipped, lines that do not fit give nothing, and a decimal score is what
/// the converter gave for it.
pub open spec fn players_from<F: Fn(Vec<u8>) -> Option<i32>>(
    f: F,
    lines: Seq<Seq<u8>>,
    ps: Seq<RawPlayerModel>,
) -> bool
    decreases lines.len(),
{
    if lines.len() == 0 {
        ps.len() == 0
    } else {
        let l = lines.last();
        let init = lines.drop_last();
        if l.len() == 0 {
            players_from(f, init, ps)
        } else {
            exists|d: Option<i32>| #[trigger] line_outcome(f, l, d) && match spec_player_line(l, d) {
                Some(p) => ps.len() > 0 && ps.last() == p && players_from(f, init, ps.drop_last()),
                None => players_from(f, init, ps),
            }
        }
    }
}

fn is_status_word(cmd: &[u8]) -> (r: bool)
    ensures
        r == has_status_word(cmd@),
{
    if cmd.len() < 14 {
        return false;
    }
    let r = cmd[0] == 0x73 && cmd[1] == 0x74 && cmd[2] == 0x61 && cmd[3] == 0x74 && cmd[4] == 0x75
        && cmd[5] == 0x73 && cmd[6] == 0x52 && cmd[7] == 0x65 && cmd[8] == 0x73 && cmd[9] == 0x70
        && cmd[10] == 0x6f && cmd[11] == 0x6e && cmd[12] == 0x73 && cmd[13] == 0x65;
    proof {
        let w = seq![
            0x73u8, 0x74, 0x61, 0x74, 0x75, 0x73, 0x52, 0x65, 0x73, 0x70, 0x6f, 0x6e, 0x73, 0x65,
        ];
        if r {
            assert(cmd@.take(14) =~= w);
        } else {
            if cmd@.take(14) == w {
                assert(cmd@.take(14)[0] == w[0]);
                assert(cmd@.take(14)[1] == w[1]);
                assert(cmd@.take(14)[2] == w[2]);
                assert(cmd@.take(14)[3] == w[3]);
                assert(cmd@.take(14)[4] == w[4]);
                assert(cmd@.take(14)[5] == w[5]);
                assert(cmd@.take(14)[6] == w[6]);
                assert(cmd@.take(14)[7] == w[7]);
                assert(cmd@.take(14)[8] == w[8]);
                assert(cmd@.take(14)[9] == w[9]);
                assert(cmd@.take(14)[10] == w[10]);
                assert(cmd@.take(14)[11] == w[11]);
                assert(cmd@.take(14)[12] == w[12]);
                assert(cmd@.take(14)[13] == w[13]);
            }
        }
    }
    r
}

/// Reads a game server's `statusResponse` packet: the info string's rules
/// and the player lines. A score written with a decimal point is handed to
/// `centi`, which gives it in hundredths. Other packets give nothing.
pub fn parse_status_response<F: Fn(Vec<u8>) -> Option<i32>>(
    address: PeerAddr,
    buf: &[u8],
    centi: &F,
) -> (r: Option<RawStatus>)
    requires
        converter_total(*centi),
    ensures
        match status_body(buf@) {
            None => r is None,
            Some(body) => r matches Some(st) && st.address@ == address@ && st.rules@
                == spec_infostring(status_info(body)) && players_from(
                *centi,
                status_lines(body),
                players_view(st.players@),
            ),
        },
{
    let data: &[u8] = if buf.len() >= 4 && buf[0] == 0xff && buf[1] == 0xff && buf[2] == 0xff
        && buf[3] == 0xff {
        &buf[4..buf.len()]
    } else {
        buf
    };
    assert(data@ =~= strip_header(buf@));
    let nl = find_byte(data, 0x0a);
    proof { lemma_first_index_bounds(data@, 0x0au8); }
    if nl >= data.len() {
        return None;
    }
    if !is_status_word(&data[0..nl]) {
        assert(data@.subrange(0, nl as int) =~= data@.take(nl as int));
        return None;
    }
    assert(data@.subrange(0, nl as int) =~= data@.take(nl as int));
    let body = &data[nl + 1..data.len()];
    assert(body@ =~= data@.skip(nl + 1));
    let ie = find_byte(body, 0x0a);
    proof { lemma_first_index_bounds(body@, 0x0au8); }
    let rules = parse_infostring(&body[0..ie]);
    assert(body@.subrange(0, ie as int) =~= status_info(body@));
    let mut players: Vec<RawPlayer> = Vec::new();
    if ie < body.len() {
        let rest = &body[ie + 1..body.len()];
        assert(rest@ =~= body@.skip(ie + 1));
        let lines = split_bytes(rest, 0x0a);
        let ghost lv = pieces_view_u8(lines@);
        let mut i: usize = 0;
        assert(lv.take(0) =~= Seq::<Seq<u8>>::empty());
        while i < lines.len()
            invariant
                converter_total(*centi),
                lv == pieces_view_u8(lines@),
                i <= lines.len(),
                players_from(*centi, lv.take(i as int), players_view(players@)),
            decreases lines.len() - i,
        {
            let ghost before = players_view(players@);
            let ghost t = lv.take(i + 1);
            assert(t.drop_last() =~= lv.take(i as int));
            assert(t.last() == lines@[i as int]@);
            if lines[i].len() == 0 {
            } else {
                let p = parse_player_line(&lines[i], centi);
                let ghost d = choose|d: Option<i32>| line_outcome(*centi, lines@[i as int]@, d)
                    && opt_player_view(p) == spec_player_line(lines@[i as int]@, d);
                match p {
                    Some(p) => {
                        players.push(p);
                        assert(players_view(players@).drop_last() =~= before);
                    },
                    None => {},
                }
                assert(line_outcome(*centi, t.last(), d));
            }
            i += 1;
        }
        assert(lv.take(lines.len() as int) =~= lv);
    }
    Some(RawStatus { address, rules, players })
}


/// An IPv4 address in dotted decimal (`Ipv4Addr`'s `Display`).
pub open spec fn v4_text(o: Seq<u8>) -> Seq<char> {
    int_text(o[0] as int) + seq!['.'] + int_text(o[1] as int) + seq!['.'] + int_text(o[2] as int)
        + seq!['.'] + int_text(o[3] as int)
}

pub open spec fn hex_digit(d: int) -> char {
    if d < 10 {
        (('0' as int) + d) as char
    } else {
        (('a' as int) + d - 10) as char
    }
}

/// A number in lowercase hexadecimal without leading zeros (`{:x}`).
pub open spec fn hex_text(n: nat) -> Seq<char>
    decreases n,
{
    if n < 16 {
        seq![hex_digit(n as int)]
    } else {
        hex_text(n / 16).push(hex_digit((n % 16) as int))
    }
}

/// The eight 16-bit groups of an IPv6 address.
pub open spec fn v6_groups(o: Seq<u8>) -> Seq<nat> {
    Seq::new(8, |k: int| (o[2 * k] as nat) * 256 + (o[2 * k + 1] as nat))
}

/// Groups in hex separated by `:`.
pub open spec fn join_hex(g: Seq<nat>) -> Seq<char>
    decreases g.len(),
{
    if g.len() == 0 {
        seq![]
    } else if g.len() == 1 {
        hex_text(g[0])
    } else {
        join_hex(g.drop_last()) + seq![':'] + hex_text(g.last())
    }
}

/// After the first `i` groups: the longest run of zero groups so far
/// (start, length; the leftmost of equal ones) and the current run.
pub open spec fn zero_span(g: Seq<nat>, i: nat) -> (int, int, int, int)
    decreases i,
{
    if i == 0 || i > g.len() {
        (0, 0, 0, 0)
    } else {
        let (ls, ll, cs, cl) = zero_span(g, (i - 1) as nat);
        if g[i - 1] == 0 {
            let cs2 = if cl == 0 { i - 1 } else { cs };
            let cl2 = cl + 1;
            if cl2 > ll {
                (cs2, cl2, cs2, cl2)
            } else {
                (ls, ll, cs2, cl2)
            }
        } else {
            (ls, ll, 0, 0)
        }
    }
}

/// An IPv6 address as `Ipv6Addr`'s `Display` writes it: IPv4-mapped
/// addresses as `::ffff:a.b.c.d`; otherwise the groups in hex with the
/// leftmost longest run of two or more zero groups written as `::`.
pub open spec fn v6_text(o: Seq<u8>) -> Seq<char> {
    let g = v6_groups(o);
    if g[0] == 0 && g[1] == 0 && g[2] == 0 && g[3] == 0 && g[4] == 0 && g[5] == 0xffff {
        seq![':', ':', 'f', 'f', 'f', 'f', ':'] + v4_text(o.skip(12))
    } else {
        let (ls, ll, _, _) = zero_span(g, 8);
        if ll > 1 {
            join_hex(g.take(ls)) + seq![':', ':'] + join_hex(g.skip(ls + ll))
        } else {
            join_hex(g)
        }
    }
}

/// An address's IP part in text.
pub open spec fn ip_text_of(a: (Seq<u8>, u16)) -> Seq<char> {
    if a.0.len() == 4 {
        v4_text(a.0)
    } else {
        v6_text(a.0)
    }
}

/// A socket address in text: `a.b.c.d:port` or `[v6]:port`.
pub open spec fn addr_text_of(a: (Seq<u8>, u16)) -> Seq<char> {
    if a.0.len() == 4 {
        v4_text(a.0) + seq![':'] + int_text(a.1 as int)
    } else {
        seq!['['] + v6_text(a.0) + seq![']', ':'] + int_text(a.1 as int)
    }
}

fn hex_chars(n: u32) -> (r: Vec<char>)
    ensures
        r@ == hex_text(n as nat),
    decreases n,
{
    let d = n % 16;
    let c = if d < 10 { (('0' as u32) + d) as u8 as char } else { (('a' as u32) + d - 10) as u8 as char };
    assert(c == hex_digit(d as int));
    if n < 16 {
        let mut v: Vec<char> = Vec::new();
        v.push(c);
        assert(v@ =~= seq![hex_digit(n as int)]);
        v
    } else {
        let mut v = hex_chars(n / 16);
        v.push(c);
        v
    }
}

fn join_hex_chars(g: &[u32], from: usize, to: usize) -> (r: Vec<char>)
    requires
        from <= to <= g.len(),
    ensures
        r@ == join_hex(g@.subrange(from as int, to as int).map_values(|x: u32| x as nat)),
{
    let ghost gs = g@.map_values(|x: u32| x as nat);
    let mut r: Vec<char> = Vec::new();
    let mut i = from;
    assert(g@.subrange(from as int, from as int).map_values(|x: u32| x as nat) =~= Seq::<nat>::empty());
    while i < to
        invariant
            from <= i <= to <= g.len(),
            r@ == join_hex(g@.subrange(from as int, i as int).map_values(|x: u32| x as nat)),
        decreases to - i,
    {
        let ghost pre = g@.subrange(from as int, i as int).map_values(|x: u32| x as nat);
        let ghost nxt = g@.subrange(from as int, i + 1).map_values(|x: u32| x as nat);
        assert(nxt.drop_last() =~= pre);
        if i > from {
            r.push(':');
        }
        let h = hex_chars(g[i]);
        append_chars(&mut r, &h);
        proof {
            if i == from {
                assert(nxt.len() == 1);
                assert(r@ =~= join_hex(nxt));
            } else {
                assert(r@ =~= join_hex(nxt));
            }
        }
        i += 1;
    }
    r
}

fn v4_chars(a: u8, b: u8, c: u8, d: u8) -> (r: Vec<char>)
    ensures
        r@ == v4_text(seq![a, b, c, d]),
{
    let mut r = int_chars(a as i64);
    r.push('.');
    append_chars(&mut r, &int_chars(b as i64));
    r.push('.');
    append_chars(&mut r, &int_chars(c as i64));
    r.push('.');
    append_chars(&mut r, &int_chars(d as i64));
    let ghost o = seq![a, b, c, d];
    assert(r@ =~= v4_text(o));
    r
}

fn v6_chars(o: &[u8]) -> (r: Vec<char>)
    requires
        o@.len() == 16,
    ensures
        r@ == v6_text(o@),
{
    let ghost g = v6_groups(o@);
    let mut groups: Vec<u32> = Vec::new();
    let mut k: usize = 0;
    while k < 8
        invariant
            k <= 8,
            o@.len() == 16,
            g == v6_groups(o@),
            groups@.len() == k,
            forall|j: int| 0 <= j < k ==> (#[trigger] groups@[j]) as nat == g[j],
        decreases 8 - k,
    {
        groups.push((o[2 * k] as u32) * 256 + (o[2 * k + 1] as u32));
        k += 1;
    }
    assert(groups@.map_values(|x: u32| x as nat) =~= g);
    assert(groups@.subrange(0, 8) =~= groups@);
    if groups[0] == 0 && groups[1] == 0 && groups[2] == 0 && groups[3] == 0 && groups[4] == 0
        && groups[5] == 0xffff {
        let mut r: Vec<char> = Vec::new();
        append_str(&mut r, "::ffff:");
        proof { reveal_strlit("::ffff:"); }
        let t = v4_chars(o[12], o[13], o[14], o[15]);
        assert(seq![o[12], o[13], o[14], o[15]] =~= o@.skip(12));
        append_chars(&mut r, &t);
        assert(r@ =~= v6_text(o@));
        return r;
    }
    let mut ls: usize = 0;
    let mut ll: usize = 0;
    let mut cs: usize = 0;
    let mut cl: usize = 0;
    let mut i: usize = 0;
    while i < 8
        invariant
            i <= 8,
            groups@.len() == 8,
            g == v6_groups(o@),
            forall|j: int| 0 <= j < 8 ==> (#[trigger] groups@[j]) as nat == g[j],
            zero_span(g, i as nat) == (ls as int, ll as int, cs as int, cl as int),
            ls <= 8,
            ll <= i,
            cs <= i,
            cl <= i,
            cl > 0 ==> cs + cl == i,
            ls + ll <= i,
        decreases 8 - i,
    {
        if groups[i] == 0 {
            if cl == 0 {
                cs = i;
            }
            cl += 1;
            if cl > ll {
                ls = cs;
                ll = cl;
            }
        } else {
            cs = 0;
            cl = 0;
        }
        i += 1;
        assert(zero_span(g, i as nat) == (ls as int, ll as int, cs as int, cl as int));
    }
    let mut r: Vec<char>;
    if ll > 1 {
        r = join_hex_chars(&groups, 0, ls);
        r.push(':');
        r.push(':');
        let tail = join_hex_chars(&groups, ls + ll, 8);
        append_chars(&mut r, &tail);
        assert(groups@.subrange(0, ls as int).map_values(|x: u32| x as nat) =~= g.take(ls as int));
        assert(groups@.subrange(ls + ll, 8).map_values(|x: u32| x as nat) =~= g.skip(ls + ll));
        assert(r@ =~= v6_text(o@));
    } else {
        r = join_hex_chars(&groups, 0, 8);
        assert(r@ =~= v6_text(o@));
    }
    r
}

impl PeerAddr {
    /// The IP part in text, as `IpAddr`'s `Display` writes it.
    pub fn ip_text(&self) -> (r: String)
        requires
            self.ip@.len() == 4 || self.ip@.len() == 16,
        ensures
            r@ == ip_text_of(self@),
    {
        if self.ip.len() == 4 {
            let t = v4_chars(self.ip[0], self.ip[1], self.ip[2], self.ip[3]);
            assert(seq![self.ip@[0], self.ip@[1], self.ip@[2], self.ip@[3]] =~= self.ip@);
            string_of(&t)
        } else {
            string_of(&v6_chars(&self.ip))
        }
    }

    /// The address in text, as `SocketAddr`'s `Display` writes it.
    pub fn to_text(&self) -> (r: String)
        requires
            self.ip@.len() == 4 || self.ip@.len() == 16,
        ensures
            r@ == addr_text_of(self@),
    {
        let mut v: Vec<char> = Vec::new();
        if self.ip.len() == 4 {
            let t = v4_chars(self.ip[0], self.ip[1], self.ip[2], self.ip[3]);
            assert(seq![self.ip@[0], self.ip@[1], self.ip@[2], self.ip@[3]] =~= self.ip@);
            append_chars(&mut v, &t);
            v.push(':');
        } else {
            v.push('[');
            append_chars(&mut v, &v6_chars(&self.ip));
            v.push(']');
            v.push(':');
        }
        append_chars(&mut v, &int_chars(self.port as i64));
        assert(v@ =~= addr_text_of(self@));
        string_of(&v)
    }
}

} // verus!
