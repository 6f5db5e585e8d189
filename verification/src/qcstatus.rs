//! The `qcstatus` rule: game mode, version, flags and the score layout.
//! Its fields are `:`-separated:
//! `mode:version:P<impure>:S<slots>:F<flags>:M<mode2>::<player score>:<team score>:<team>:<value>...`

use vstd::prelude::*;

use crate::bindings::{regex_replace_first, strip_t_field, to_upper, upper_text};
use crate::model::{
    empty_flags, empty_scoreinfo, is_text, keys_increasing, law_score_put, map_team, score_insert,
    score_put, spec_map_team, ScoreFlags, ScoreFlagsModel, ScoreInfo, ScoreInfoModel, TeamScoreInfo, TeamScoreInfoModel,
};
use crate::text::{
    all_digits, append_chars, append_str, before_first, chars_of, digits_value, is_digit, find_char, first_index,
    lemma_first_index_bounds, lemma_split_on_nonempty, parse_i32, pieces_view_char, spec_parse_i32,
    split_chars, split_on, string_of, sub_chars,
};

verus! {

/// `str::parse::<i32>().unwrap_or(0)`.
pub open spec fn int_or_zero(s: Seq<char>) -> i32 {
    match spec_parse_i32(s) {
        Some(v) => v,
        None => 0,
    }
}

fn parse_or_zero(s: &[char]) -> (r: i32)
    ensures
        r == int_or_zero(s@),
{
    match parse_i32(s) {
        Some(v) => v,
        None => 0,
    }
}

/// The number after an optional one-character prefix (`P56` gives 56),
/// 0 when it is not a number.
pub open spec fn spec_skip_prefix(s: Seq<char>, p: char) -> i32 {
    int_or_zero(if s.len() > 0 && s[0] == p { s.skip(1) } else { s })
}

/// The number after an optional one-character prefix.
pub fn skip_prefix(s: &[char], p: char) -> (r: i32)
    ensures
        r == spec_skip_prefix(s@, p),
{
    if s.len() > 0 && s[0] == p {
        let t = sub_chars(s, 1, s.len());
        assert(t@ =~= s@.skip(1));
        parse_or_zero(&t)
    } else {
        parse_or_zero(s)
    }
}

pub open spec fn is_lower(c: char) -> bool {
    'a' <= c && c <= 'z'
}

/// The length of the run of ASCII lowercase letters at the start.
pub open spec fn lower_run(s: Seq<char>) -> int
    decreases s.len(),
{
    if s.len() > 0 && is_lower(s[0]) {
        1 + lower_run(s.drop_first())
    } else {
        0
    }
}

/// The length of the run of ASCII lowercase letters and `?` at the start.
pub open spec fn mode_run(s: Seq<char>) -> int
    decreases s.len(),
{
    if s.len() > 0 && (is_lower(s[0]) || s[0] == '?') {
        1 + mode_run(s.drop_first())
    } else {
        0
    }
}

proof fn lemma_lower_run(s: Seq<char>, i: int)
    requires
        0 <= i <= s.len(),
        forall|j: int| 0 <= j < i ==> is_lower(#[trigger] s[j]),
        i == s.len() || !is_lower(s[i]),
    ensures
        lower_run(s) == i,
    decreases s.len(),
{
    if i > 0 {
        let t = s.drop_first();
        assert forall|j: int| 0 <= j < i - 1 implies is_lower(#[trigger] t[j]) by {
            assert(t[j] == s[j + 1]);
        }
        lemma_lower_run(t, i - 1);
    }
}

proof fn lemma_mode_run(s: Seq<char>, i: int)
    requires
        0 <= i <= s.len(),
        forall|j: int| 0 <= j < i ==> is_lower(#[trigger] s[j]) || s[j] == '?',
        i == s.len() || !(is_lower(s[i]) || s[i] == '?'),
    ensures
        mode_run(s) == i,
    decreases s.len(),
{
    if i > 0 {
        let t = s.drop_first();
        assert forall|j: int| 0 <= j < i - 1 implies is_lower(#[trigger] t[j]) || t[j] == '?' by {
            assert(t[j] == s[j + 1]);
        }
        lemma_mode_run(t, i - 1);
    }
}

/// A short `qcstatus` (`mode:::rest`): its mode and the rest.
pub open spec fn spec_short_qc(qc: Seq<char>) -> Option<(Seq<char>, Seq<char>)> {
    let i = mode_run(qc);
    if i > 0 && qc.len() >= i + 3 && qc[i] == ':' && qc[i + 1] == ':' && qc[i + 2] == ':' {
        Some((qc.take(i), qc.skip(i + 3)))
    } else {
        None
    }
}

/// Recognises `^([a-z?]+):::(.*)$` and gives the two groups.
pub fn regex_short_qc(qc: &[char]) -> (r: Option<(Vec<char>, Vec<char>)>)
    ensures
        match spec_short_qc(qc@) {
            Some((m, rest)) => r matches Some((a, b)) && a@ == m && b@ == rest,
            None => r is None,
        },
{
    let mut i: usize = 0;
    while i < qc.len() && (('a' <= qc[i] && qc[i] <= 'z') || qc[i] == '?')
        invariant
            i <= qc.len(),
            forall|j: int| 0 <= j < i ==> is_lower(#[trigger] qc@[j]) || qc@[j] == '?',
        decreases qc.len() - i,
    {
        i += 1;
    }
    proof { lemma_mode_run(qc@, i as int); }
    if i == 0 || qc.len() - i < 3 || qc[i] != ':' || qc[i + 1] != ':' || qc[i + 2] != ':' {
        return None;
    }
    let m = sub_chars(qc, 0, i);
    let rest = sub_chars(qc, i + 3, qc.len());
    assert(m@ =~= qc@.take(i as int));
    assert(rest@ =~= qc@.skip(i + 3));
    Some((m, rest))
}

/// A label and its flags: the leading ASCII lowercase letters and the rest.
pub open spec fn spec_split_label_flags(s: Seq<char>) -> Option<(Seq<char>, Seq<char>)> {
    let e = lower_run(s);
    if s.len() == 0 || e == 0 {
        None
    } else {
        Some((s.take(e), s.skip(e)))
    }
}

/// Splits `label` + flags (`score!!`, `caps<`).
pub fn split_label_flags(s: &[char]) -> (r: Option<(Vec<char>, Vec<char>)>)
    ensures
        match spec_split_label_flags(s@) {
            Some((l, f)) => r matches Some((a, b)) && a@ == l && b@ == f,
            None => r is None,
        },
{
    if s.len() == 0 {
        return None;
    }
    let mut e: usize = 0;
    while e < s.len() && 'a' <= s[e] && s[e] <= 'z'
        invariant
            e <= s.len(),
            forall|j: int| 0 <= j < e ==> is_lower(#[trigger] s@[j]),
        decreases s.len() - e,
    {
        e += 1;
    }
    proof { lemma_lower_run(s@, e as int); }
    if e == 0 {
        return None;
    }
    let l = sub_chars(s, 0, e);
    let f = sub_chars(s, e, s.len());
    assert(l@ =~= s@.take(e as int));
    assert(f@ =~= s@.skip(e as int));
    Some((l, f))
}

/// A score column from its label and flags; `<` means lower is better.
pub open spec fn flags_of(label: Seq<char>, flags: Seq<char>) -> ScoreFlagsModel {
    ScoreFlagsModel {
        label,
        flags,
        order: if flags.contains('<') { 1 } else { 0 },
        score: seq![],
    }
}

fn make_flags(label: Vec<char>, flags: Vec<char>) -> (r: ScoreFlags)
    ensures
        r@ == flags_of(label@, flags@),
{
    let p = find_char(&flags, '<');
    proof {
        lemma_first_index_bounds(flags@, '<');
        if flags@.contains('<') {
            let j = choose|j: int| 0 <= j < flags@.len() && flags@[j] == '<';
            assert(first_index(flags@, '<') <= j);
        }
    }
    let order = if p < flags.len() { 1 } else { 0 };
    ScoreFlags { label: string_of(&label), flags: string_of(&flags), order, score: Vec::new() }
}

/// The player score column of a `qcstatus` (its first comma-separated part).
pub open spec fn spec_scoreinfo_token(s: Seq<char>) -> Option<ScoreFlagsModel> {
    match spec_split_label_flags(before_first(s, ',')) {
        Some((l, f)) => Some(flags_of(l, f)),
        None => None,
    }
}

pub open spec fn opt_flags_view(o: Option<ScoreFlags>) -> Option<ScoreFlagsModel> {
    match o {
        Some(f) => Some(f@),
        None => None,
    }
}

/// Reads the player score column.
pub fn parse_scoreinfo_token(s: &[char]) -> (r: Option<ScoreFlags>)
    ensures
        opt_flags_view(r) == spec_scoreinfo_token(s@),
{
    let i = find_char(s, ',');
    proof { lemma_first_index_bounds(s@, ','); }
    let first = sub_chars(s, 0, i);
    assert(first@ =~= before_first(s@, ','));
    match split_label_flags(&first) {
        Some((l, f)) => Some(make_flags(l, f)),
        None => None,
    }
}

/// The team score columns: primary before the first comma, secondary after
/// it (unused when it does not read as a label).
pub open spec fn spec_team_scoreinfo(s: Seq<char>) -> Option<(ScoreFlagsModel, ScoreFlagsModel)> {
    match spec_split_label_flags(before_first(s, ',')) {
        None => None,
        Some((l, f)) => {
            let pri = flags_of(l, f);
            let sec = match crate::text::split_once(s, ',') {
                Some((_, rest)) => match spec_split_label_flags(rest) {
                    Some((l2, f2)) => flags_of(l2, f2),
                    None => empty_flags(),
                },
                None => empty_flags(),
            };
            Some((pri, sec))
        },
    }
}

/// Reads the team score columns.
pub fn parse_team_scoreinfo(s: &[char]) -> (r: Option<(ScoreFlags, ScoreFlags)>)
    ensures
        match spec_team_scoreinfo(s@) {
            Some((p, q)) => r matches Some((a, b)) && a@ == p && b@ == q,
            None => r is None,
        },
{
    let i = find_char(s, ',');
    proof { lemma_first_index_bounds(s@, ','); }
    let first = sub_chars(s, 0, i);
    assert(first@ =~= before_first(s@, ','));
    let (l, f) = match split_label_flags(&first) {
        Some(p) => p,
        None => return None,
    };
    let pri = make_flags(l, f);
    let sec = if i < s.len() {
        let rest = sub_chars(s, i + 1, s.len());
        assert(rest@ =~= s@.skip(i + 1));
        match split_label_flags(&rest) {
            Some((l2, f2)) => make_flags(l2, f2),
            None => ScoreFlags::empty(),
        }
    } else {
        ScoreFlags::empty()
    };
    Some((pri, sec))
}

/// The `qcstatus` text the fields are read from: an empty rule stands for
/// `?:::`; a short one (`mode:::rest`) gets default fields; a `T<...>` field
/// right after the flags is dropped.
pub open spec fn qc_text(raw: Seq<char>) -> Seq<char> {
    let qc = if raw.len() == 0 { "?:::"@ } else { raw };
    let qc2 = match spec_short_qc(qc) {
        Some((m, rest)) => m + ":?:P9999:S0:F0:MUnknown::"@ + rest,
        None => qc,
    };
    strip_t_field(qc2)
}

pub open spec fn qc_parts(raw: Seq<char>) -> Seq<Seq<char>> {
    split_on(qc_text(raw), ':')
}

/// Field `i`, or `d` when there are fewer fields.
pub open spec fn field(parts: Seq<Seq<char>>, i: int, d: Seq<char>) -> Seq<char> {
    if i < parts.len() {
        parts[i]
    } else {
        d
    }
}

/// The `M<mode2>` field: `MXonotic` is vanilla, otherwise the name after
/// the `M` in uppercase, `UNKNOWN` when there is none.
pub open spec fn spec_mode2(m: Seq<char>) -> Seq<char> {
    if m == "MXonotic"@ {
        "VANILLA"@
    } else if m.len() >= 2 {
        upper_text(m.skip(1))
    } else {
        "UNKNOWN"@
    }
}

/// The mode2 field is read from its second byte on; that is only defined
/// when the field is empty or starts with an ASCII character.
pub open spec fn qc_readable(raw: Seq<char>) -> bool {
    let m = field(qc_parts(raw), 5, "MUnknown"@);
    m.len() == 0 || (m[0] as u32) < 0x80
}

/// The second value of `pri,sec`, or `0` when there is no comma.
pub open spec fn second_value(v: Seq<char>) -> Seq<char> {
    match crate::text::split_once(v, ',') {
        Some((_, b)) => b,
        None => "0"@,
    }
}

/// The team values after the first `k` `team:value` pairs of `ts`
/// (primary, secondary). With `sec`, values are `pri,sec`.
pub open spec fn fold_team_scores(ts: Seq<Seq<char>>, k: nat, sec: bool) -> (
    Seq<(i32, i32)>,
    Seq<(i32, i32)>,
)
    decreases k,
{
    if k == 0 {
        (seq![], seq![])
    } else {
        let (p, s) = fold_team_scores(ts, (k - 1) as nat, sec);
        let team = spec_map_team(int_or_zero(ts[2 * k - 2]));
        let v = ts[2 * k - 1];
        if sec {
            (
                score_insert(p, team, int_or_zero(before_first(v, ','))),
                score_insert(s, team, int_or_zero(second_value(v))),
            )
        } else {
            (score_insert(p, team, int_or_zero(v)), s)
        }
    }
}

proof fn lemma_fold_in_team_order(ts: Seq<Seq<char>>, k: nat, sec: bool)
    ensures
        keys_increasing(fold_team_scores(ts, k, sec).0),
        keys_increasing(fold_team_scores(ts, k, sec).1),
    decreases k,
{
    if k > 0 {
        lemma_fold_in_team_order(ts, (k - 1) as nat, sec);
        let (p, s) = fold_team_scores(ts, (k - 1) as nat, sec);
        let team = spec_map_team(int_or_zero(ts[2 * k - 2]));
        let v = ts[2 * k - 1];
        if sec {
            law_score_put(p, team, int_or_zero(before_first(v, ',')));
            law_score_put(s, team, int_or_zero(second_value(v)));
        } else {
            law_score_put(p, team, int_or_zero(v));
        }
    }
}

/// The team values a `qcstatus` gives are kept in increasing team order,
/// each team once, in both team columns.
pub proof fn law_team_values_in_team_order(raw: Seq<char>)
    ensures
        keys_increasing(spec_qcstatus(raw).scoreinfo.team.pri.score),
        keys_increasing(spec_qcstatus(raw).scoreinfo.team.sec.score),
{
    let parts = qc_parts(raw);
    if parts.len() > 8 {
        let ts = if parts.len() > 9 { parts.skip(9) } else { seq![] };
        lemma_fold_in_team_order(ts, (ts.len() / 2) as nat, true);
        lemma_fold_in_team_order(ts, (ts.len() / 2) as nat, false);
    }
}

proof fn lemma_low_bits(n: i32)
    requires
        n >= 0,
    ensures
        n & 1 == n % 2,
        (n & 2 != 0) == ((n / 2) % 2 == 1),
        (n & 4 != 0) == ((n / 4) % 2 == 1),
{
    assert(n & 1 == n % 2) by (bit_vector)
        requires
            n >= 0,
    ;
    assert((n & 2 != 0) == ((n / 2) % 2 == 1)) by (bit_vector)
        requires
            n >= 0,
    ;
    assert((n & 4 != 0) == ((n / 4) % 2 == 1)) by (bit_vector)
        requires
            n >= 0,
    ;
}

/// The `F<n>` field is a set of bits: bit 0 (1) allows fullbright skins,
/// bit 1 (2) marks a team game, bit 2 (4) marks a server that keeps
/// player statistics. With `F` and the decimal digits of `n`, the three
/// flags are the last three binary digits of `n`.
pub proof fn law_flag_bits(raw: Seq<char>, digits: Seq<char>)
    requires
        field(qc_parts(raw), 4, "F0"@) == seq!['F'] + digits,
        digits.len() > 0,
        all_digits(digits),
        digits_value(digits) <= i32::MAX,
    ensures
        spec_qcstatus(raw).fballowed == digits_value(digits) % 2,
        spec_qcstatus(raw).teamplay == (digits_value(digits) / 2) % 2,
        spec_qcstatus(raw).stats == (digits_value(digits) / 4) % 2,
{
    let f = field(qc_parts(raw), 4, "F0"@);
    assert(f.skip(1) =~= digits);
    assert(!(digits[0] == '-' || digits[0] == '+')) by {
        assert(is_digit(digits[0]));
    }
    lemma_digits_value_nonneg(digits);
    let n = digits_value(digits) as i32;
    assert(spec_skip_prefix(f, 'F') == n);
    lemma_low_bits(n);
}

/// The flags of any `qcstatus`, whatever its `F` field holds: bit 0 of its
/// number allows fullbright skins, bit 1 makes a team game, bit 2 a server
/// with player statistics.
pub proof fn law_flag_fields(raw: Seq<char>)
    ensures
        spec_qcstatus(raw).fballowed == spec_skip_prefix(field(qc_parts(raw), 4, "F0"@), 'F') & 1,
        spec_qcstatus(raw).teamplay == 1 <==> spec_skip_prefix(field(qc_parts(raw), 4, "F0"@), 'F') & 2 != 0,
        spec_qcstatus(raw).teamplay == 0 || spec_qcstatus(raw).teamplay == 1,
        spec_qcstatus(raw).stats == 1 <==> spec_skip_prefix(field(qc_parts(raw), 4, "F0"@), 'F') & 4 != 0,
        spec_qcstatus(raw).stats == 0 || spec_qcstatus(raw).stats == 1,
{
}

/// The other fields of a `qcstatus`, split at `:`: the first is the game
/// mode, in uppercase; then the version (`?` when missing), `P<impure>`,
/// `S<slots>` and `M<mod>` (`MXonotic` is the vanilla game); the player
/// order follows the player score column's `<` flag.
pub proof fn law_qc_fields(raw: Seq<char>)
    ensures
        spec_qcstatus(raw).mode == upper_text(qc_parts(raw)[0]),
        spec_qcstatus(raw).version == (if qc_parts(raw).len() > 1 { qc_parts(raw)[1] } else { "?"@ }),
        spec_qcstatus(raw).impure == spec_skip_prefix(field(qc_parts(raw), 2, "P0"@), 'P'),
        spec_qcstatus(raw).slots == spec_skip_prefix(field(qc_parts(raw), 3, "S0"@), 'S'),
        field(qc_parts(raw), 5, "MUnknown"@) == "MXonotic"@ ==> spec_qcstatus(raw).mode2 == "VANILLA"@,
        field(qc_parts(raw), 5, "MUnknown"@) != "MXonotic"@ && field(qc_parts(raw), 5, "MUnknown"@).len() >= 2
            ==> spec_qcstatus(raw).mode2 == upper_text(field(qc_parts(raw), 5, "MUnknown"@).skip(1)),
        spec_qcstatus(raw).player_order == spec_qcstatus(raw).scoreinfo.player.order,
        spec_qcstatus(raw).player_order == 0 || spec_qcstatus(raw).player_order == 1,
{
}

proof fn lemma_digits_value_nonneg(d: Seq<char>)
    requires
        all_digits(d),
    ensures
        digits_value(d) >= 0,
    decreases d.len(),
{
    if d.len() > 0 {
        assert(is_digit(d.last()));
        lemma_digits_value_nonneg(d.drop_last());
    }
}

/// What a `qcstatus` says.
#[derive(Debug)]
pub struct QcParsed {
    pub mode: String,
    pub version: String,
    pub impure: i32,
    pub slots: i32,
    pub fballowed: i32,
    pub teamplay: i32,
    pub stats: i32,
    pub mode2: String,
    pub player_order: i32,
    pub scoreinfo: ScoreInfo,
}

pub struct QcModel {
    pub mode: Seq<char>,
    pub version: Seq<char>,
    pub impure: i32,
    pub slots: i32,
    pub fballowed: i32,
    pub teamplay: i32,
    pub stats: i32,
    pub mode2: Seq<char>,
    pub player_order: i32,
    pub scoreinfo: ScoreInfoModel,
}

impl View for QcParsed {
    type V = QcModel;

    open spec fn view(&self) -> QcModel {
        QcModel {
            mode: self.mode@,
            version: self.version@,
            impure: self.impure,
            slots: self.slots,
            fballowed: self.fballowed,
            teamplay: self.teamplay,
            stats: self.stats,
            mode2: self.mode2@,
            player_order: self.player_order,
            scoreinfo: self.scoreinfo@,
        }
    }
}

/// The player score column of the fields.
pub open spec fn spec_qc_player(parts: Seq<Seq<char>>) -> ScoreFlagsModel {
    if parts.len() > 7 {
        match spec_scoreinfo_token(parts[7]) {
            Some(si) => si,
            None => empty_flags(),
        }
    } else {
        empty_flags()
    }
}

/// The team score columns of the fields, with the team values.
pub open spec fn spec_qc_team(parts: Seq<Seq<char>>) -> TeamScoreInfoModel {
    if parts.len() > 8 {
        match spec_team_scoreinfo(parts[8]) {
            Some((pri, sec)) => {
                let is_sec = sec.label.len() != 0;
                let ts = if parts.len() > 9 { parts.skip(9) } else { seq![] };
                let (ps, ss) = fold_team_scores(ts, (ts.len() / 2) as nat, is_sec);
                TeamScoreInfoModel {
                    prefer: if is_sec { "sec"@ } else { "pri"@ },
                    pri: ScoreFlagsModel { score: ps, ..pri },
                    sec: if is_sec { ScoreFlagsModel { score: ss, ..sec } } else { sec },
                }
            },
            None => empty_scoreinfo().team,
        }
    } else {
        empty_scoreinfo().team
    }
}

/// The score layout of a `qcstatus`.
pub open spec fn spec_qc_scoreinfo(parts: Seq<Seq<char>>) -> ScoreInfoModel {
    ScoreInfoModel { player: spec_qc_player(parts), team: spec_qc_team(parts) }
}

/// What `parse_qcstatus` reads from a `qcstatus` rule.
pub open spec fn spec_qcstatus(raw: Seq<char>) -> QcModel {
    let parts = qc_parts(raw);
    let flags = spec_skip_prefix(field(parts, 4, "F0"@), 'F');
    let si = spec_qc_scoreinfo(parts);
    QcModel {
        mode: upper_text(parts[0]),
        version: field(parts, 1, "?"@),
        impure: spec_skip_prefix(field(parts, 2, "P0"@), 'P'),
        slots: spec_skip_prefix(field(parts, 3, "S0"@), 'S'),
        fballowed: flags & 1,
        teamplay: if flags & 2 != 0 { 1 } else { 0 },
        stats: if flags & 4 != 0 { 1 } else { 0 },
        mode2: spec_mode2(field(parts, 5, "MUnknown"@)),
        player_order: if parts.len() > 7 {
            match spec_scoreinfo_token(parts[7]) {
                Some(f) => f.order,
                None => 0,
            }
        } else {
            0
        },
        scoreinfo: si,
    }
}

fn field_or(parts: &Vec<Vec<char>>, i: usize, d: &str) -> (r: Vec<char>)
    ensures
        r@ == field(pieces_view_char(parts@), i as int, d@),
{
    if i < parts.len() {
        sub_chars(&parts[i], 0, parts[i].len())
    } else {
        chars_of(d)
    }
}

/// Whether `parse_qcstatus` can read `raw` (its mode2 field is empty or
/// starts with an ASCII character).
pub fn qc_readable_check(raw: &str) -> (r: bool)
    ensures
        r == qc_readable(raw@),
{
    let rc = chars_of(raw);
    let qc: Vec<char> = if rc.len() == 0 { chars_of("?:::") } else { rc };
    let qc2: Vec<char> = match regex_short_qc(&qc) {
        Some((m, rest)) => {
            let mut v = m;
            append_str(&mut v, ":?:P9999:S0:F0:MUnknown::");
            append_chars(&mut v, &rest);
            v
        },
        None => qc,
    };
    let qs = string_of(&qc2);
    let stripped = regex_replace_first("(:F[0-9]+:)T[^:]+:", qs.as_str(), "$1");
    let text = chars_of(stripped.as_str());
    assert(text@ == qc_text(raw@));
    let parts = split_chars(&text, ':');
    let m2 = field_or(&parts, 5, "MUnknown");
    m2.len() == 0 || (m2[0] as u32) < 0x80
}

/// Reads a server's `qcstatus` rule (the player count is not used).
pub fn parse_qcstatus(raw: &str, _numplayers: i32) -> (r: QcParsed)
    requires
        qc_readable(raw@),
    ensures
        r@ == spec_qcstatus(raw@),
{
    let rc = chars_of(raw);
    let qc: Vec<char> = if rc.len() == 0 { chars_of("?:::") } else { rc };
    let qc2: Vec<char> = match regex_short_qc(&qc) {
        Some((m, rest)) => {
            let mut v = m;
            append_str(&mut v, ":?:P9999:S0:F0:MUnknown::");
            append_chars(&mut v, &rest);
            v
        },
        None => qc,
    };
    let qs = string_of(&qc2);
    let stripped = regex_replace_first("(:F[0-9]+:)T[^:]+:", qs.as_str(), "$1");
    let text = chars_of(stripped.as_str());
    assert(text@ == qc_text(raw@));
    let parts = split_chars(&text, ':');
    let ghost pv = pieces_view_char(parts@);
    proof { lemma_split_on_nonempty(text@, ':'); }
    let mode = to_upper(string_of(&parts[0]).as_str());
    let version = string_of(&field_or(&parts, 1, "?"));
    let impure = skip_prefix(&field_or(&parts, 2, "P0"), 'P');
    let slots = skip_prefix(&field_or(&parts, 3, "S0"), 'S');
    let flags = skip_prefix(&field_or(&parts, 4, "F0"), 'F');
    let m2 = field_or(&parts, 5, "MUnknown");
    let m2s = string_of(&m2);
    let mode2 = if is_text(m2s.as_str(), "MXonotic") {
        "VANILLA".to_owned()
    } else if m2.len() >= 2 {
        let t = sub_chars(&m2, 1, m2.len());
        assert(t@ =~= m2@.skip(1));
        to_upper(string_of(&t).as_str())
    } else {
        "UNKNOWN".to_owned()
    };
    let mut player = ScoreFlags::empty();
    let mut player_order: i32 = 0;
    if parts.len() > 7 {
        match parse_scoreinfo_token(&parts[7]) {
            Some(si) => {
                player_order = si.order;
                player = si;
            },
            None => {},
        }
    }
    assert(player@ == spec_qc_player(pv));
    let mut team = TeamScoreInfo {
        prefer: String::new(),
        pri: ScoreFlags::empty(),
        sec: ScoreFlags::empty(),
    };
    if parts.len() > 8 {
        assert(pv[8] == parts@[8]@);
        match parse_team_scoreinfo(&parts[8]) {
            Some((pri, sec)) => {
                let is_sec = chars_of(sec.label.as_str()).len() != 0;
                let mut ps: Vec<(i32, i32)> = Vec::new();
                let mut ss: Vec<(i32, i32)> = Vec::new();
                let ghost ts = if pv.len() > 9 { pv.skip(9) } else { seq![] };
                let mut j: usize = 0;
                while parts.len() > 9 && j + 1 < parts.len() - 9
                    invariant
                        pv == pieces_view_char(parts@),
                        ts == (if pv.len() > 9 { pv.skip(9) } else { seq![] }),
                        j % 2 == 0,
                        parts.len() > 9 ==> j <= parts.len() - 9,
                        parts.len() <= 9 ==> j == 0,
                        (ps@, ss@) == fold_team_scores(ts, (j / 2) as nat, is_sec),
                    decreases parts.len() - j,
                {
                    let k = &parts[9 + j];
                    let v = &parts[9 + j + 1];
                    assert(k@ == ts[j as int]);
                    assert(v@ == ts[j + 1]);
                    let team_id = map_team(parse_or_zero(k));
                    if is_sec {
                        let c = find_char(v, ',');
                        proof { lemma_first_index_bounds(v@, ','); }
                        let a = sub_chars(v, 0, c);
                        assert(a@ =~= before_first(v@, ','));
                        let b = if c < v.len() {
                            let b = sub_chars(v, c + 1, v.len());
                            assert(b@ =~= v@.skip(c + 1));
                            b
                        } else {
                            chars_of("0")
                        };
                        assert(b@ == second_value(v@));
                        score_put(&mut ps, team_id, parse_or_zero(&a));
                        score_put(&mut ss, team_id, parse_or_zero(&b));
                    } else {
                        score_put(&mut ps, team_id, parse_or_zero(v));
                    }
                    j += 2;
                }
                proof {
                    if pv.len() > 9 {
                        assert(j / 2 == ts.len() / 2);
                    }
                }
                assert((ps@, ss@) == fold_team_scores(ts, (ts.len() / 2) as nat, is_sec));
                assert(is_sec == (sec@.label.len() != 0));
                let ScoreFlags { label: pl, flags: pf, order: po, score: _ } = pri;
                let pri2 = ScoreFlags { label: pl, flags: pf, order: po, score: ps };
                let sec2 = if is_sec {
                    let ScoreFlags { label: sl, flags: sf, order: so, score: _ } = sec;
                    ScoreFlags { label: sl, flags: sf, order: so, score: ss }
                } else {
                    sec
                };
                team = TeamScoreInfo {
                    prefer: if is_sec { "sec".to_owned() } else { "pri".to_owned() },
                    pri: pri2,
                    sec: sec2,
                };
                assert(team@ == spec_qc_team(pv));
            },
            None => {},
        }
    }
    assert(team@ == spec_qc_team(pv));
    let r = QcParsed {
        mode,
        version,
        impure,
        slots,
        fballowed: flags & 1,
        teamplay: if flags & 2 != 0 { 1 } else { 0 },
        stats: if flags & 4 != 0 { 1 } else { 0 },
        mode2,
        player_order,
        scoreinfo: ScoreInfo { player, team },
    };
    assert(r@.scoreinfo == spec_qc_scoreinfo(pv));
    r
}

} // verus!
