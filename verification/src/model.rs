//! The server list's data: servers, players, score layouts and the
//! snapshot the site serves, with the small display rules.

use vstd::prelude::*;

use crate::bindings::{char_upper, upper_char};
use crate::qfont::{ordinate, score2time, spec_ordinate, spec_score2time, truncate_chars};
use crate::sorting::{
    law_sort_keeps_ties, law_sort_permutes, law_sort_sorted, lemma_insert_index, sort_stable,
    strict_order, strict_weak_order, tied_with,
};
use crate::text::{
    chars_of, find_char, int_chars, int_text, lemma_first_index_bounds, lemma_split_on_nonempty,
    lemma_text_lt_irreflexive, lemma_text_lt_total, lemma_text_lt_transitive, pieces_view_char,
    split_chars, split_once, string_of, strip_cr, sub_chars, text_less, text_lines, text_lt,
    trim_chars, trim_start_chars, trim_start_text, trim_text,
};

verus! {

/// Maps the engine's team colour numbers to the list's team ids:
/// red 5 to 1, blue 14 to 2, yellow 13 to 3, pink 10 to 4; others stay.
pub open spec fn spec_map_team(raw: i32) -> i32 {
    if raw == 5 {
        1
    } else if raw == 14 {
        2
    } else if raw == 13 {
        3
    } else if raw == 10 {
        4
    } else {
        raw
    }
}

/// Maps a team colour number to the list's team id.
pub fn map_team(raw: i32) -> (r: i32)
    ensures
        r == spec_map_team(raw),
{
    match raw {
        5 => 1,
        14 => 2,
        13 => 3,
        10 => 4,
        other => other,
    }
}

/// Whether the characters of `s` are exactly those of the literal `lit`.
pub fn is_text(s: &str, lit: &str) -> (r: bool)
    ensures
        r == (s@ == lit@),
{
    let a = chars_of(s);
    let b = chars_of(lit);
    crate::text::chars_eq(&a, &b)
}

/// Totals of a snapshot.
#[derive(Clone, Copy, Debug)]
pub struct Info {
    pub activeservers: i32,
    pub totalservers: i32,
    pub totalplayers: i32,
    pub totalbots: i32,
    pub lastupdate_epoch: u64,
    pub lastupdate: u64,
}

impl Info {
    pub open spec fn zero() -> Info {
        Info {
            activeservers: 0,
            totalservers: 0,
            totalplayers: 0,
            totalbots: 0,
            lastupdate_epoch: 0,
            lastupdate: 0,
        }
    }
}

impl Default for Info {
    fn default() -> (r: Info)
        ensures
            r == Info::zero(),
    {
        Info {
            activeservers: 0,
            totalservers: 0,
            totalplayers: 0,
            totalbots: 0,
            lastupdate_epoch: 0,
            lastupdate: 0,
        }
    }
}

/// One score column: its label (`score`, `caps`, `fastest`...), its flags
/// (`!`, `<`), whether lower is better (`order` 1), and per-team values
/// kept in increasing team order.
#[derive(Debug)]
pub struct ScoreFlags {
    pub label: String,
    pub flags: String,
    pub order: i32,
    pub score: Vec<(i32, i32)>,
}

pub struct ScoreFlagsModel {
    pub label: Seq<char>,
    pub flags: Seq<char>,
    pub order: i32,
    pub score: Seq<(i32, i32)>,
}

impl View for ScoreFlags {
    type V = ScoreFlagsModel;

    open spec fn view(&self) -> ScoreFlagsModel {
        ScoreFlagsModel {
            label: self.label@,
            flags: self.flags@,
            order: self.order,
            score: self.score@,
        }
    }
}

pub open spec fn empty_flags() -> ScoreFlagsModel {
    ScoreFlagsModel { label: seq![], flags: seq![], order: 0, score: seq![] }
}

impl ScoreFlags {
    /// An unused score column.
    pub fn empty() -> (r: ScoreFlags)
        ensures
            r@ == empty_flags(),
    {
        ScoreFlags { label: String::new(), flags: String::new(), order: 0, score: Vec::new() }
    }
}

/// Keys in strictly increasing order.
pub open spec fn keys_increasing(s: Seq<(i32, i32)>) -> bool {
    forall|i: int, j: int| 0 <= i < j < s.len() ==> (#[trigger] s[i]).0 < (#[trigger] s[j]).0
}

/// The team values as a map from team to value.
pub open spec fn score_map(s: Seq<(i32, i32)>) -> Map<i32, i32>
    decreases s.len(),
{
    if s.len() == 0 {
        Map::empty()
    } else {
        score_map(s.drop_last()).insert(s.last().0, s.last().1)
    }
}

/// `BTreeMap::insert` on the ordered pairs: the value of `k` becomes `v`,
/// in place when `k` is there, otherwise in key order.
pub open spec fn score_insert(s: Seq<(i32, i32)>, k: i32, v: i32) -> Seq<(i32, i32)>
    decreases s.len(),
{
    if s.len() == 0 {
        seq![(k, v)]
    } else if s[0].0 == k {
        s.update(0, (k, v))
    } else if k < s[0].0 {
        seq![(k, v)] + s
    } else {
        seq![s[0]] + score_insert(s.drop_first(), k, v)
    }
}

/// Sets team `k`'s value to `v`, keeping the teams in increasing order.
pub fn score_put(s: &mut Vec<(i32, i32)>, k: i32, v: i32)
    ensures
        final(s)@ == score_insert(old(s)@, k, v),
{
    let ghost s0 = s@;
    let mut i: usize = 0;
    assert(s0.skip(0) =~= s0);
    assert(s0.take(0) + score_insert(s0, k, v) =~= score_insert(s0, k, v));
    while i < s.len() && s[i].0 < k
        invariant
            s@ == s0,
            i <= s.len(),
            forall|j: int| 0 <= j < i ==> (#[trigger] s0[j]).0 < k,
            score_insert(s0, k, v) == s0.take(i as int) + score_insert(s0.skip(i as int), k, v),
        decreases s.len() - i,
    {
        proof {
            let t = s0.skip(i as int);
            assert(t.drop_first() =~= s0.skip(i + 1));
            assert(s0.take(i + 1) =~= s0.take(i as int).push(s0[i as int]));
            assert(score_insert(t, k, v) == seq![t[0]] + score_insert(t.drop_first(), k, v));
            assert(s0.take(i as int) + score_insert(t, k, v) =~= s0.take(i + 1) + score_insert(
                s0.skip(i + 1),
                k,
                v,
            ));
        }
        i += 1;
    }
    let ghost t = s0.skip(i as int);
    if i < s.len() && s[i].0 == k {
        s.set(i, (k, v));
        assert(s@ =~= s0.take(i as int) + t.update(0, (k, v)));
    } else {
        s.insert(i, (k, v));
        proof {
            if i < s0.len() {
                assert(s@ =~= s0.take(i as int) + (seq![(k, v)] + t));
            } else {
                assert(t.len() == 0);
                assert(s@ =~= s0.take(i as int) + seq![(k, v)]);
            }
        }
    }
}

/// Which score layout a team game prefers (`pri` or `sec`) and both columns.
#[derive(Debug)]
pub struct TeamScoreInfo {
    pub prefer: String,
    pub pri: ScoreFlags,
    pub sec: ScoreFlags,
}

pub struct TeamScoreInfoModel {
    pub prefer: Seq<char>,
    pub pri: ScoreFlagsModel,
    pub sec: ScoreFlagsModel,
}

impl View for TeamScoreInfo {
    type V = TeamScoreInfoModel;

    open spec fn view(&self) -> TeamScoreInfoModel {
        TeamScoreInfoModel { prefer: self.prefer@, pri: self.pri@, sec: self.sec@ }
    }
}

/// The score layout of a server: the player column and the team columns.
#[derive(Debug)]
pub struct ScoreInfo {
    pub player: ScoreFlags,
    pub team: TeamScoreInfo,
}

pub struct ScoreInfoModel {
    pub player: ScoreFlagsModel,
    pub team: TeamScoreInfoModel,
}

impl View for ScoreInfo {
    type V = ScoreInfoModel;

    open spec fn view(&self) -> ScoreInfoModel {
        ScoreInfoModel { player: self.player@, team: self.team@ }
    }
}

pub open spec fn empty_scoreinfo() -> ScoreInfoModel {
    ScoreInfoModel {
        player: empty_flags(),
        team: TeamScoreInfoModel { prefer: seq![], pri: empty_flags(), sec: empty_flags() },
    }
}

impl ScoreInfo {
    /// No score layout.
    pub fn empty() -> (r: ScoreInfo)
        ensures
            r@ == empty_scoreinfo(),
    {
        ScoreInfo {
            player: ScoreFlags::empty(),
            team: TeamScoreInfo {
                prefer: String::new(),
                pri: ScoreFlags::empty(),
                sec: ScoreFlags::empty(),
            },
        }
    }
}

/// A player as the list shows it. `prio` orders spectators (2) and
/// players without a team (1) after the others (0).
#[derive(Debug)]
pub struct Player {
    pub name: String,
    pub score: i32,
    pub ping: i32,
    pub team: i32,
    pub prio: i32,
}

pub struct PlayerModel {
    pub name: Seq<char>,
    pub score: i32,
    pub ping: i32,
    pub team: i32,
    pub prio: i32,
}

impl View for Player {
    type V = PlayerModel;

    open spec fn view(&self) -> PlayerModel {
        PlayerModel {
            name: self.name@,
            score: self.score,
            ping: self.ping,
            team: self.team,
            prio: self.prio,
        }
    }
}

/// A game server as the list shows it.
#[derive(Debug)]
pub struct Server {
    pub address: String,
    pub realname: String,
    pub map: String,
    pub geo: String,
    pub version: String,
    pub gamedir: String,
    pub mode: String,
    pub modefull: String,
    pub mode2: String,
    pub impure: i32,
    pub slots: i32,
    pub numplayers: i32,
    pub maxplayers: i32,
    pub numbots: i32,
    pub numspectators: i32,
    pub enc: i32,
    pub d0id: String,
    pub fballowed: i32,
    pub teamplay: i32,
    pub stats: i32,
    pub scoreinfo: ScoreInfo,
    pub players: Vec<Player>,
}

pub struct ServerModel {
    pub address: Seq<char>,
    pub realname: Seq<char>,
    pub map: Seq<char>,
    pub geo: Seq<char>,
    pub version: Seq<char>,
    pub gamedir: Seq<char>,
    pub mode: Seq<char>,
    pub modefull: Seq<char>,
    pub mode2: Seq<char>,
    pub impure: i32,
    pub slots: i32,
    pub numplayers: i32,
    pub maxplayers: i32,
    pub numbots: i32,
    pub numspectators: i32,
    pub enc: i32,
    pub d0id: Seq<char>,
    pub fballowed: i32,
    pub teamplay: i32,
    pub stats: i32,
    pub scoreinfo: ScoreInfoModel,
    pub players: Seq<PlayerModel>,
}

pub open spec fn players_model(p: Seq<Player>) -> Seq<PlayerModel> {
    p.map_values(|x: Player| x@)
}

impl View for Server {
    type V = ServerModel;

    open spec fn view(&self) -> ServerModel {
        ServerModel {
            address: self.address@,
            realname: self.realname@,
            map: self.map@,
            geo: self.geo@,
            version: self.version@,
            gamedir: self.gamedir@,
            mode: self.mode@,
            modefull: self.modefull@,
            mode2: self.mode2@,
            impure: self.impure,
            slots: self.slots,
            numplayers: self.numplayers,
            maxplayers: self.maxplayers,
            numbots: self.numbots,
            numspectators: self.numspectators,
            enc: self.enc,
            d0id: self.d0id@,
            fballowed: self.fballowed,
            teamplay: self.teamplay,
            stats: self.stats,
            scoreinfo: self.scoreinfo@,
            players: players_model(self.players@),
        }
    }
}

/// `encryption_label`'s text for an encryption level.
pub open spec fn spec_encryption_label(enc: i32) -> Seq<char> {
    if enc == 3 {
        "Required"@
    } else if enc == 2 {
        "Requested"@
    } else if enc == 1 {
        "Supported"@
    } else {
        "Not Supported"@
    }
}

/// How a server's encryption level is shown.
pub fn encryption_label(enc: i32) -> (r: &'static str)
    ensures
        r@ == spec_encryption_label(enc),
{
    match enc {
        3 => "Required",
        2 => "Requested",
        1 => "Supported",
        _ => "Not Supported",
    }
}

/// The text with its first character in uppercase.
pub open spec fn spec_ucfirst(s: Seq<char>) -> Seq<char> {
    if s.len() == 0 {
        s
    } else {
        upper_char(s[0]) + s.skip(1)
    }
}

/// The text with its first character in uppercase.
pub fn ucfirst(s: &str) -> (r: String)
    ensures
        r@ == spec_ucfirst(s@),
{
    let c = chars_of(s);
    if c.len() == 0 {
        return String::new();
    }
    let head = char_upper(c[0]);
    let mut v = chars_of(head.as_str());
    let mut i: usize = 1;
    while i < c.len()
        invariant
            1 <= i <= c.len(),
            v@ == upper_char(c@[0]) + c@.subrange(1, i as int),
        decreases c.len() - i,
    {
        v.push(c[i]);
        i += 1;
        assert(v@ =~= upper_char(c@[0]) + c@.subrange(1, i as int));
    }
    assert(c@.subrange(1, c@.len() as int) =~= c@.skip(1));
    string_of(&v)
}

/// How a player's ping is shown.
#[derive(Debug, Clone, Copy)]
pub enum PingKind {
    Arrows,
    Bot,
    Number(i32),
}

/// Ping 1 is shown as arrows (a connecting player), 0 as a bot, others as
/// the number.
pub fn ping_kind(p: &Player) -> (r: PingKind)
    ensures
        p.ping == 1 ==> r is Arrows,
        p.ping == 0 ==> r is Bot,
        p.ping != 0 && p.ping != 1 ==> r == PingKind::Number(p.ping),
{
    if p.ping == 1 {
        PingKind::Arrows
    } else if p.ping == 0 {
        PingKind::Bot
    } else {
        PingKind::Number(p.ping)
    }
}

/// The CSS class of a team's colour.
pub open spec fn spec_team_class(team: i32) -> Option<Seq<char>> {
    if team == 1 {
        Some("team1red"@)
    } else if team == 2 {
        Some("team2blue"@)
    } else if team == 3 {
        Some("team3yellow"@)
    } else if team == 4 {
        Some("team4pink"@)
    } else {
        None
    }
}

pub open spec fn opt_str_view(o: Option<&'static str>) -> Option<Seq<char>> {
    match o {
        Some(s) => Some(s@),
        None => None,
    }
}

/// The CSS class of a team's colour; teams other than 1 to 4 have none.
pub fn team_class(team: i32) -> (r: Option<&'static str>)
    ensures
        opt_str_view(r) == spec_team_class(team),
{
    match team {
        1 => Some("team1red"),
        2 => Some("team2blue"),
        3 => Some("team3yellow"),
        4 => Some("team4pink"),
        _ => None,
    }
}

/// Labels of score columns that hold race times.
pub open spec fn spec_is_time_label(label: Seq<char>) -> bool {
    label == "fastest"@ || label == "time"@
}

pub fn is_time_label(label: &str) -> (r: bool)
    ensures
        r == spec_is_time_label(label@),
{
    is_text(label, "fastest") || is_text(label, "time")
}

pub open spec fn opt_text_view(o: Option<String>) -> Option<Seq<char>> {
    match o {
        Some(s) => Some(s@),
        None => None,
    }
}

/// `trunc_with_title`: the first `n` characters, and the whole text as a
/// title when something was cut.
pub open spec fn spec_trunc_with_title(s: Seq<char>, n: nat) -> (Seq<char>, Option<Seq<char>>) {
    if s.len() <= n {
        (s, None)
    } else {
        (s.take(n as int), Some(s))
    }
}

/// The text cut to `n` characters, with the full text as a title when it
/// was cut.
pub fn trunc_with_title(s: &str, n: usize) -> (r: (String, Option<String>))
    ensures
        (r.0@, opt_text_view(r.1)) == spec_trunc_with_title(s@, n as nat),
{
    let t = truncate_chars(s, n);
    let c = chars_of(s);
    if c.len() > n {
        (t, Some(s.to_owned()))
    } else {
        (t, None)
    }
}


fn copy_pairs(v: &Vec<(i32, i32)>) -> (r: Vec<(i32, i32)>)
    ensures
        r@ == v@,
{
    let mut r: Vec<(i32, i32)> = Vec::new();
    let mut i: usize = 0;
    while i < v.len()
        invariant
            i <= v.len(),
            r@ == v@.take(i as int),
        decreases v.len() - i,
    {
        r.push(v[i]);
        i += 1;
        assert(r@ =~= v@.take(i as int));
    }
    assert(v@.take(v.len() as int) =~= v@);
    r
}

proof fn lemma_score_map_at(s: Seq<(i32, i32)>, team: i32, k: int)
    requires
        0 <= k < s.len(),
        s[k].0 == team,
        forall|j: int| k < j < s.len() ==> (#[trigger] s[j]).0 != team,
    ensures
        score_map(s).contains_key(team),
        score_map(s)[team] == s[k].1,
    decreases s.len(),
{
    if k < s.len() - 1 {
        let d = s.drop_last();
        assert(s[s.len() - 1].0 != team);
        assert forall|j: int| k < j < d.len() implies (#[trigger] d[j]).0 != team by {
            assert(d[j] == s[j]);
        }
        lemma_score_map_at(d, team, k);
    }
}

proof fn lemma_score_map_absent(s: Seq<(i32, i32)>, team: i32)
    requires
        forall|j: int| 0 <= j < s.len() ==> (#[trigger] s[j]).0 != team,
    ensures
        !score_map(s).contains_key(team),
    decreases s.len(),
{
    if s.len() > 0 {
        let d = s.drop_last();
        assert(s[s.len() - 1].0 != team);
        assert forall|j: int| 0 <= j < d.len() implies (#[trigger] d[j]).0 != team by {
            assert(d[j] == s[j]);
        }
        lemma_score_map_absent(d, team);
    }
}

/// What `score_insert` keeps: the new pair, and every pair of another
/// team; the teams stay in increasing order.
proof fn lemma_score_insert_members(s: Seq<(i32, i32)>, k: i32, v: i32)
    requires
        keys_increasing(s),
    ensures
        keys_increasing(score_insert(s, k, v)),
        score_insert(s, k, v).contains((k, v)),
        forall|j: int|
            0 <= j < score_insert(s, k, v).len() ==> #[trigger] score_insert(s, k, v)[j] == (k, v) || (
            s.contains(score_insert(s, k, v)[j]) && score_insert(s, k, v)[j].0 != k),
        forall|i: int| 0 <= i < s.len() && (#[trigger] s[i]).0 != k ==> score_insert(s, k, v).contains(s[i]),
        forall|j: int| 0 <= j < score_insert(s, k, v).len() ==> (s.len() > 0 && s[0].0 <= (
            #[trigger] score_insert(s, k, v)[j]).0) || k <= score_insert(s, k, v)[j].0,
    decreases s.len(),
{
    let r = score_insert(s, k, v);
    if s.len() == 0 {
        assert(r[0] == (k, v));
    } else if s[0].0 == k {
        assert(r[0] == (k, v));
        assert forall|j: int| 0 <= j < r.len() implies #[trigger] r[j] == (k, v) || (s.contains(r[j]) && r[j].0 != k) by {
            if j > 0 {
                assert(r[j] == s[j]);
                assert(s[0].0 < s[j].0);
            }
        }
        assert forall|i: int| 0 <= i < s.len() && (#[trigger] s[i]).0 != k implies r.contains(s[i]) by {
            assert(r[i] == s[i]);
        }
        assert forall|j: int| 0 <= j < r.len() implies (s.len() > 0 && s[0].0 <= (#[trigger] r[j]).0) || k <= r[j].0 by {
            if j > 0 {
                assert(r[j] == s[j]);
                assert(s[0].0 < s[j].0);
            }
        }
        assert(keys_increasing(r)) by {
            assert forall|i: int, j: int| 0 <= i < j < r.len() implies (#[trigger] r[i]).0 < (#[trigger] r[j]).0 by {
                assert(r[j] == s[j]);
                if i > 0 {
                    assert(r[i] == s[i]);
                } else {
                    assert(s[0].0 < s[j].0);
                }
            }
        }
    } else if k < s[0].0 {
        assert(r[0] == (k, v));
        assert forall|j: int| 0 <= j < r.len() implies #[trigger] r[j] == (k, v) || (s.contains(r[j]) && r[j].0 != k) by {
            if j > 0 {
                assert(r[j] == s[j - 1]);
                if j > 1 {
                    assert(s[0].0 < s[j - 1].0);
                }
            }
        }
        assert forall|i: int| 0 <= i < s.len() && (#[trigger] s[i]).0 != k implies r.contains(s[i]) by {
            assert(r[i + 1] == s[i]);
        }
        assert forall|j: int| 0 <= j < r.len() implies (s.len() > 0 && s[0].0 <= (#[trigger] r[j]).0) || k <= r[j].0 by {
            if j > 0 {
                assert(r[j] == s[j - 1]);
                if j > 1 {
                    assert(s[0].0 < s[j - 1].0);
                }
            }
        }
        assert(keys_increasing(r)) by {
            assert forall|i: int, j: int| 0 <= i < j < r.len() implies (#[trigger] r[i]).0 < (#[trigger] r[j]).0 by {
                assert(r[j] == s[j - 1]);
                if i > 0 {
                    assert(r[i] == s[i - 1]);
                } else if j > 1 {
                    assert(s[0].0 < s[j - 1].0);
                }
            }
        }
    } else {
        let t = s.drop_first();
        assert(keys_increasing(t)) by {
            assert forall|i: int, j: int| 0 <= i < j < t.len() implies (#[trigger] t[i]).0 < (#[trigger] t[j]).0 by {
                assert(t[i] == s[i + 1] && t[j] == s[j + 1]);
            }
        }
        lemma_score_insert_members(t, k, v);
        let it = score_insert(t, k, v);
        assert(r == seq![s[0]] + it);
        let p = choose|p: int| 0 <= p < it.len() && it[p] == (k, v);
        assert(r[p + 1] == (k, v));
        assert forall|j: int| 0 <= j < r.len() implies #[trigger] r[j] == (k, v) || (s.contains(r[j]) && r[j].0 != k) by {
            if j == 0 {
                assert(r[0] == s[0]);
            } else {
                assert(r[j] == it[j - 1]);
                if it[j - 1] != (k, v) {
                    let q = choose|q: int| 0 <= q < t.len() && t[q] == it[j - 1];
                    assert(s[q + 1] == t[q]);
                }
            }
        }
        assert forall|i: int| 0 <= i < s.len() && (#[trigger] s[i]).0 != k implies r.contains(s[i]) by {
            if i == 0 {
                assert(r[0] == s[0]);
            } else {
                assert(t[i - 1] == s[i]);
                let q = choose|q: int| 0 <= q < it.len() && it[q] == t[i - 1];
                assert(r[q + 1] == s[i]);
            }
        }
        assert forall|j: int| 0 <= j < r.len() implies (s.len() > 0 && s[0].0 <= (#[trigger] r[j]).0) || k <= r[j].0 by {
            if j > 0 {
                assert(r[j] == it[j - 1]);
                if t.len() > 0 {
                    assert(s[0].0 < t[0].0);
                }
            }
        }
        assert(keys_increasing(r)) by {
            assert forall|i: int, j: int| 0 <= i < j < r.len() implies (#[trigger] r[i]).0 < (#[trigger] r[j]).0 by {
                assert(r[j] == it[j - 1]);
                if i > 0 {
                    assert(r[i] == it[i - 1]);
                } else {
                    assert(r[0] == s[0]);
                    if t.len() > 0 {
                        assert(s[0].0 < t[0].0);
                    }
                }
            }
        }
    }
}

/// The team values kept in increasing team order behave as a map:
/// setting team `k` to `v` keeps the order, makes `k`'s value `v`, and
/// leaves every other team's value as it was.
pub proof fn law_score_put(s: Seq<(i32, i32)>, k: i32, v: i32)
    requires
        keys_increasing(s),
    ensures
        keys_increasing(score_insert(s, k, v)),
        score_map(score_insert(s, k, v)) == score_map(s).insert(k, v),
{
    lemma_score_insert_members(s, k, v);
    let r = score_insert(s, k, v);
    assert forall|q: i32| #[trigger] score_map(r).contains_key(q) == score_map(s).insert(k, v).contains_key(q)
        && (score_map(r).contains_key(q) ==> score_map(r)[q] == score_map(s).insert(k, v)[q]) by {
        if q == k {
            let p = choose|p: int| 0 <= p < r.len() && r[p] == (k, v);
            assert forall|j: int| p < j < r.len() implies (#[trigger] r[j]).0 != k by {
                assert(r[p].0 < r[j].0);
            }
            lemma_score_map_at(r, k, p);
        } else if exists|i: int| 0 <= i < s.len() && (#[trigger] s[i]).0 == q {
            let i = choose|i: int| 0 <= i < s.len() && (#[trigger] s[i]).0 == q;
            assert forall|j: int| i < j < s.len() implies (#[trigger] s[j]).0 != q by {
                assert(s[i].0 < s[j].0);
            }
            lemma_score_map_at(s, q, i);
            assert(r.contains(s[i]));
            let p = choose|p: int| 0 <= p < r.len() && r[p] == s[i];
            assert forall|j: int| p < j < r.len() implies (#[trigger] r[j]).0 != q by {
                assert(r[p].0 < r[j].0);
            }
            lemma_score_map_at(r, q, p);
        } else {
            lemma_score_map_absent(s, q);
            assert forall|j: int| 0 <= j < r.len() implies (#[trigger] r[j]).0 != q by {
                if r[j] != (k, v) {
                    let m = choose|m: int| 0 <= m < s.len() && s[m] == r[j];
                    assert(s[m].0 != q);
                }
            }
            lemma_score_map_absent(r, q);
        }
    }
    assert(score_map(r) =~= score_map(s).insert(k, v));
}

impl ScoreFlags {
    /// The value of team `team`, if it has one.
    pub fn score_of(&self, team: i32) -> (r: Option<i32>)
        ensures
            r == (if score_map(self@.score).contains_key(team) {
                Some(score_map(self@.score)[team])
            } else {
                None
            }),
    {
        let ghost s = self@.score;
        let mut k: usize = self.score.len();
        while k > 0
            invariant
                s == self@.score,
                k <= s.len(),
                forall|j: int| k <= j < s.len() ==> (#[trigger] s[j]).0 != team,
            decreases k,
        {
            if self.score[k - 1].0 == team {
                proof { lemma_score_map_at(s, team, k - 1); }
                return Some(self.score[k - 1].1);
            }
            k -= 1;
        }
        proof { lemma_score_map_absent(s, team); }
        None
    }
}

impl ScoreFlags {
    /// A copy of the column.
    pub fn duplicate(&self) -> (r: ScoreFlags)
        ensures
            r@ == self@,
    {
        ScoreFlags {
            label: self.label.clone(),
            flags: self.flags.clone(),
            order: self.order,
            score: copy_pairs(&self.score),
        }
    }
}

impl ScoreInfo {
    /// A copy of the layout.
    pub fn duplicate(&self) -> (r: ScoreInfo)
        ensures
            r@ == self@,
    {
        ScoreInfo {
            player: self.player.duplicate(),
            team: TeamScoreInfo {
                prefer: self.team.prefer.clone(),
                pri: self.team.pri.duplicate(),
                sec: self.team.sec.duplicate(),
            },
        }
    }
}

impl Player {
    /// A copy of the player.
    pub fn duplicate(&self) -> (r: Player)
        ensures
            r@ == self@,
    {
        Player {
            name: self.name.clone(),
            score: self.score,
            ping: self.ping,
            team: self.team,
            prio: self.prio,
        }
    }
}

impl Server {
    /// A copy of the server entry.
    pub fn duplicate(&self) -> (r: Server)
        ensures
            r@ == self@,
    {
        let mut players: Vec<Player> = Vec::new();
        let mut i: usize = 0;
        while i < self.players.len()
            invariant
                i <= self.players.len(),
                players@.len() == i,
                players_model(players@) == players_model(self.players@).take(i as int),
            decreases self.players.len() - i,
        {
            let p = self.players[i].duplicate();
            players.push(p);
            assert(players@[i as int]@ == self.players@[i as int]@);
            i += 1;
            assert(players_model(players@) =~= players_model(self.players@).take(i as int));
        }
        assert(players_model(self.players@).take(i as int) =~= players_model(self.players@));
        Server {
            address: self.address.clone(),
            realname: self.realname.clone(),
            map: self.map.clone(),
            geo: self.geo.clone(),
            version: self.version.clone(),
            gamedir: self.gamedir.clone(),
            mode: self.mode.clone(),
            modefull: self.modefull.clone(),
            mode2: self.mode2.clone(),
            impure: self.impure,
            slots: self.slots,
            numplayers: self.numplayers,
            maxplayers: self.maxplayers,
            numbots: self.numbots,
            numspectators: self.numspectators,
            enc: self.enc,
            d0id: self.d0id.clone(),
            fballowed: self.fballowed,
            teamplay: self.teamplay,
            stats: self.stats,
            scoreinfo: self.scoreinfo.duplicate(),
            players,
        }
    }
}

/// The list as served: totals and the servers in address order.
#[derive(Debug)]
pub struct Snapshot {
    pub info: Info,
    pub server: Vec<Server>,
}

pub struct SnapshotModel {
    pub info: Info,
    pub server: Seq<ServerModel>,
}

pub open spec fn servers_model(s: Seq<Server>) -> Seq<ServerModel> {
    s.map_values(|x: Server| x@)
}

impl View for Snapshot {
    type V = SnapshotModel;

    open spec fn view(&self) -> SnapshotModel {
        SnapshotModel { info: self.info, server: servers_model(self.server@) }
    }
}

/// Addresses in strictly increasing text order (the snapshot's keys).
pub open spec fn addresses_increasing(s: Seq<ServerModel>) -> bool {
    forall|i: int, j: int|
        0 <= i < j < s.len() ==> text_lt(#[trigger] s[i].address, #[trigger] s[j].address)
}

/// `u64::saturating_sub`.
pub open spec fn sat_sub(a: u64, b: u64) -> u64 {
    if a >= b {
        (a - b) as u64
    } else {
        0
    }
}

/// The snapshot with its age (`lastupdate`) set for the time `now`.
pub open spec fn aged(s: SnapshotModel, now: u64) -> SnapshotModel {
    SnapshotModel {
        info: Info { lastupdate: sat_sub(now, s.info.lastupdate_epoch), ..s.info },
        server: s.server,
    }
}

/// Seconds since the Unix epoch (0 when the clock is before it).
#[verifier::external_body]
pub fn now_epoch() -> u64 {
    std::time::SystemTime::now().duration_since(std::time::UNIX_EPOCH).map(|d| d.as_secs()).unwrap_or(0)
}

impl Snapshot {
    /// A snapshot with no servers.
    pub fn empty() -> (r: Snapshot)
        ensures
            r@.info == Info::zero(),
            r@.server.len() == 0,
    {
        Snapshot { info: Info::default(), server: Vec::new() }
    }

    /// A copy of the snapshot.
    pub fn duplicate(&self) -> (r: Snapshot)
        ensures
            r@ == self@,
    {
        let mut v: Vec<Server> = Vec::new();
        let mut i: usize = 0;
        while i < self.server.len()
            invariant
                i <= self.server.len(),
                v@.len() == i,
                servers_model(v@) == servers_model(self.server@).take(i as int),
            decreases self.server.len() - i,
        {
            let x = self.server[i].duplicate();
            v.push(x);
            assert(v@[i as int]@ == self.server@[i as int]@);
            i += 1;
            assert(servers_model(v@) =~= servers_model(self.server@).take(i as int));
        }
        assert(servers_model(self.server@).take(i as int) =~= servers_model(self.server@));
        Snapshot { info: self.info, server: v }
    }

    /// A copy with `lastupdate` set to the seconds between the refresh and
    /// `now` (0 when `now` is earlier).
    pub fn with_lastupdate_at(&self, now: u64) -> (r: Snapshot)
        ensures
            r@ == aged(self@, now),
    {
        let mut s = self.duplicate();
        s.info.lastupdate = now.saturating_sub(s.info.lastupdate_epoch);
        s
    }

    /// The snapshot's age at `now`, in seconds (0 when `now` is earlier).
    pub fn age_at(&self, now: u64) -> (r: u64)
        ensures
            r == sat_sub(now, self@.info.lastupdate_epoch),
    {
        now.saturating_sub(self.info.lastupdate_epoch)
    }

    /// A copy with `lastupdate` set to the age of the snapshot now. The
    /// clock is read, so the age is whatever it shows.
    pub fn with_lastupdate_now(&self) -> (r: Snapshot)
        ensures
            exists|now: u64| r@ == aged(self@, now),
    {
        let now = now_epoch();
        let r = self.with_lastupdate_at(now);
        assert(r@ == aged(self@, now));
        r
    }
}

/// The snapshot's servers with `s` inserted by address (`BTreeMap::insert`
/// by the address: an entry with the same address is replaced in place).
pub open spec fn server_insert(es: Seq<ServerModel>, s: ServerModel) -> Seq<ServerModel>
    decreases es.len(),
{
    if es.len() == 0 {
        seq![s]
    } else if es[0].address == s.address {
        es.update(0, s)
    } else if text_lt(s.address, es[0].address) {
        seq![s] + es
    } else {
        seq![es[0]] + server_insert(es.drop_first(), s)
    }
}

/// The index of the last entry of `ss` with address `addr`, or -1.
pub open spec fn last_index_of(ss: Seq<ServerModel>, addr: Seq<char>) -> int
    decreases ss.len(),
{
    if ss.len() == 0 {
        -1
    } else if ss.last().address == addr {
        ss.len() - 1
    } else {
        last_index_of(ss.drop_last(), addr)
    }
}

proof fn lemma_insert_bound(es: Seq<ServerModel>, s: ServerModel, b: Seq<char>)
    requires
        text_lt(b, s.address),
        forall|j: int| 0 <= j < es.len() ==> text_lt(b, (#[trigger] es[j]).address),
    ensures
        forall|k: int|
            0 <= k < server_insert(es, s).len() ==> text_lt(b, (#[trigger] server_insert(es, s)[k]).address),
    decreases es.len(),
{
    if es.len() > 0 && es[0].address != s.address && !text_lt(s.address, es[0].address) {
        let t = es.drop_first();
        assert forall|j: int| 0 <= j < t.len() implies text_lt(b, (#[trigger] t[j]).address) by {
            assert(t[j] == es[j + 1]);
        }
        lemma_insert_bound(t, s, b);
        let r = server_insert(es, s);
        assert forall|k: int| 0 <= k < r.len() implies text_lt(b, (#[trigger] r[k]).address) by {
            if k > 0 {
                assert(r[k] == server_insert(t, s)[k - 1]);
            }
        }
    }
}

proof fn lemma_insert_increasing(es: Seq<ServerModel>, s: ServerModel)
    requires
        addresses_increasing(es),
    ensures
        addresses_increasing(server_insert(es, s)),
    decreases es.len(),
{
    let r = server_insert(es, s);
    if es.len() == 0 {
    } else if es[0].address == s.address {
        assert forall|i: int, j: int| 0 <= i < j < r.len() implies text_lt(#[trigger] r[i].address, #[trigger] r[j].address) by {
            assert(r[i].address == es[i].address);
            assert(r[j].address == es[j].address);
        }
    } else if text_lt(s.address, es[0].address) {
        assert forall|i: int, j: int| 0 <= i < j < r.len() implies text_lt(#[trigger] r[i].address, #[trigger] r[j].address) by {
            if i == 0 {
                if j > 1 {
                    assert(text_lt(es[0].address, es[j - 1].address));
                    lemma_text_lt_transitive(s.address, es[0].address, es[j - 1].address);
                }
            } else {
                assert(r[i] == es[i - 1] && r[j] == es[j - 1]);
            }
        }
    } else {
        let t = es.drop_first();
        assert(addresses_increasing(t)) by {
            assert forall|i: int, j: int| 0 <= i < j < t.len() implies text_lt(#[trigger] t[i].address, #[trigger] t[j].address) by {
                assert(t[i] == es[i + 1] && t[j] == es[j + 1]);
            }
        }
        lemma_insert_increasing(t, s);
        lemma_text_lt_total(s.address, es[0].address);
        assert forall|j: int| 0 <= j < t.len() implies text_lt(es[0].address, (#[trigger] t[j]).address) by {
            assert(t[j] == es[j + 1]);
        }
        lemma_insert_bound(t, s, es[0].address);
        let it = server_insert(t, s);
        assert forall|i: int, j: int| 0 <= i < j < r.len() implies text_lt(#[trigger] r[i].address, #[trigger] r[j].address) by {
            assert(r[j] == it[j - 1]);
            if i > 0 {
                assert(r[i] == it[i - 1]);
            }
        }
    }
}

/// What `server_insert` keeps: `s`, and every entry with another address;
/// nothing else.
proof fn lemma_insert_members(es: Seq<ServerModel>, s: ServerModel)
    requires
        addresses_increasing(es),
    ensures
        server_insert(es, s).contains(s),
        forall|k: int|
            0 <= k < server_insert(es, s).len() ==> #[trigger] server_insert(es, s)[k] == s || (
            es.contains(server_insert(es, s)[k]) && server_insert(es, s)[k].address != s.address),
        forall|j: int|
            0 <= j < es.len() && (#[trigger] es[j]).address != s.address ==> server_insert(es, s).contains(
                es[j],
            ),
    decreases es.len(),
{
    let r = server_insert(es, s);
    if es.len() == 0 {
        assert(r[0] == s);
    } else if es[0].address == s.address {
        assert(r[0] == s);
        assert forall|k: int| 0 <= k < r.len() implies #[trigger] r[k] == s || (es.contains(r[k])
            && r[k].address != s.address) by {
            if k > 0 {
                assert(r[k] == es[k]);
                if r[k].address == s.address {
                    assert(text_lt(es[0].address, es[k].address));
                    lemma_text_lt_irreflexive(s.address);
                }
            }
        }
        assert forall|j: int| 0 <= j < es.len() && (#[trigger] es[j]).address != s.address implies r.contains(es[j]) by {
            assert(j != 0);
            assert(r[j] == es[j]);
        }
    } else if text_lt(s.address, es[0].address) {
        assert(r[0] == s);
        assert forall|k: int| 0 <= k < r.len() implies #[trigger] r[k] == s || (es.contains(r[k])
            && r[k].address != s.address) by {
            if k > 0 {
                assert(r[k] == es[k - 1]);
                if k > 1 {
                    assert(text_lt(es[0].address, es[k - 1].address));
                    lemma_text_lt_transitive(s.address, es[0].address, es[k - 1].address);
                }
                if es[k - 1].address == s.address {
                    lemma_text_lt_irreflexive(s.address);
                }
            }
        }
        assert forall|j: int| 0 <= j < es.len() && (#[trigger] es[j]).address != s.address implies r.contains(es[j]) by {
            assert(r[j + 1] == es[j]);
        }
    } else {
        let t = es.drop_first();
        assert(addresses_increasing(t)) by {
            assert forall|i: int, j: int| 0 <= i < j < t.len() implies text_lt(#[trigger] t[i].address, #[trigger] t[j].address) by {
                assert(t[i] == es[i + 1] && t[j] == es[j + 1]);
            }
        }
        lemma_insert_members(t, s);
        let it = server_insert(t, s);
        let p = choose|p: int| 0 <= p < it.len() && it[p] == s;
        assert(r[p + 1] == s);
        assert forall|k: int| 0 <= k < r.len() implies #[trigger] r[k] == s || (es.contains(r[k])
            && r[k].address != s.address) by {
            if k == 0 {
                assert(r[0] == es[0]);
            } else {
                assert(r[k] == it[k - 1]);
                if it[k - 1] != s {
                    let q = choose|q: int| 0 <= q < t.len() && t[q] == it[k - 1];
                    assert(es[q + 1] == t[q]);
                }
            }
        }
        assert forall|j: int| 0 <= j < es.len() && (#[trigger] es[j]).address != s.address implies r.contains(es[j]) by {
            if j == 0 {
                assert(r[0] == es[0]);
            } else {
                assert(t[j - 1] == es[j]);
                let q = choose|q: int| 0 <= q < it.len() && it[q] == t[j - 1];
                assert(r[q + 1] == es[j]);
            }
        }
    }
}

/// The servers keyed by address, in address order, the last entry for an
/// address winning.
pub open spec fn index_servers(ss: Seq<ServerModel>) -> Seq<ServerModel>
    decreases ss.len(),
{
    if ss.len() == 0 {
        seq![]
    } else {
        server_insert(index_servers(ss.drop_last()), ss.last())
    }
}

pub open spec fn sum_players(ss: Seq<ServerModel>) -> int
    decreases ss.len(),
{
    if ss.len() == 0 {
        0
    } else {
        sum_players(ss.drop_last()) + ss.last().numplayers
    }
}

pub open spec fn sum_bots(ss: Seq<ServerModel>) -> int
    decreases ss.len(),
{
    if ss.len() == 0 {
        0
    } else {
        sum_bots(ss.drop_last()) + ss.last().numbots
    }
}

pub open spec fn count_active(ss: Seq<ServerModel>) -> int
    decreases ss.len(),
{
    if ss.len() == 0 {
        0
    } else {
        count_active(ss.drop_last()) + if ss.last().numplayers > 0 { 1int } else { 0int }
    }
}

/// The totals stay within `i32` while the servers are added up.
pub open spec fn totals_fit(ss: Seq<ServerModel>) -> bool {
    &&& ss.len() <= i32::MAX
    &&& forall|k: int|
        0 <= k <= ss.len() ==> i32::MIN <= #[trigger] sum_players(ss.take(k)) <= i32::MAX
    &&& forall|k: int| 0 <= k <= ss.len() ==> i32::MIN <= #[trigger] sum_bots(ss.take(k)) <= i32::MAX
}

/// The snapshot of a refresh at `epoch`: totals over all the entries,
/// the servers keyed by address.
pub open spec fn spec_assemble(ss: Seq<ServerModel>, epoch: u64) -> SnapshotModel {
    SnapshotModel {
        info: Info {
            activeservers: count_active(ss) as i32,
            totalservers: ss.len() as i32,
            totalplayers: sum_players(ss) as i32,
            totalbots: sum_bots(ss) as i32,
            lastupdate_epoch: epoch,
            lastupdate: 0,
        },
        server: index_servers(ss),
    }
}

proof fn lemma_count_active_bounds(ss: Seq<ServerModel>)
    ensures
        0 <= count_active(ss) <= ss.len(),
    decreases ss.len(),
{
    if ss.len() > 0 {
        lemma_count_active_bounds(ss.drop_last());
    }
}

fn insert_server(es: &mut Vec<Server>, s: Server)
    ensures
        servers_model(final(es)@) == server_insert(servers_model(old(es)@), s@),
{
    let ghost e0 = servers_model(es@);
    let ghost sv = s@;
    let sa = chars_of(s.address.as_str());
    let mut i: usize = 0;
    assert(e0.skip(0) =~= e0);
    assert(e0.take(0) + server_insert(e0, sv) =~= server_insert(e0, sv));
    loop
        invariant
            e0 == servers_model(es@),
            es@ == old(es)@,
            sv == s@,
            sa@ == s.address@,
            i <= es.len(),
            server_insert(e0, sv) == e0.take(i as int) + server_insert(e0.skip(i as int), sv),
        decreases es.len() - i,
    {
        let ghost t = e0.skip(i as int);
        if i == es.len() {
            es.push(s);
            assert(t.len() == 0);
            assert(servers_model(es@) =~= e0.take(i as int) + seq![sv]);
            return;
        }
        let ea = chars_of(es[i].address.as_str());
        assert(t[0] == e0[i as int]);
        if crate::text::chars_eq(&ea, &sa) {
            es.set(i, s);
            assert(servers_model(es@) =~= e0.take(i as int) + t.update(0, sv));
            return;
        }
        if text_less(&sa, &ea) {
            es.insert(i, s);
            assert(servers_model(es@) =~= e0.take(i as int) + (seq![sv] + t));
            return;
        }
        proof {
            assert(t.drop_first() =~= e0.skip(i + 1));
            assert(e0.take(i + 1) =~= e0.take(i as int).push(e0[i as int]));
            assert(e0.take(i as int) + server_insert(t, sv) =~= e0.take(i + 1) + server_insert(
                e0.skip(i + 1),
                sv,
            ));
        }
        i += 1;
    }
}

/// Whether the totals of `servers` stay within `i32` (`totals_fit`).
pub fn totals_fit_check(servers: &Vec<Server>) -> (r: bool)
    ensures
        r == totals_fit(servers_model(servers@)),
{
    let ghost ss = servers_model(servers@);
    if servers.len() > 0x7fff_ffff {
        return false;
    }
    let mut players: i64 = 0;
    let mut bots: i64 = 0;
    let mut k: usize = 0;
    assert(ss.take(0) =~= Seq::<ServerModel>::empty());
    while k < servers.len()
        invariant
            ss == servers_model(servers@),
            ss.len() <= i32::MAX,
            k <= servers.len(),
            players == sum_players(ss.take(k as int)),
            bots == sum_bots(ss.take(k as int)),
            forall|j: int| 0 <= j <= k ==> i32::MIN <= #[trigger] sum_players(ss.take(j)) <= i32::MAX,
            forall|j: int| 0 <= j <= k ==> i32::MIN <= #[trigger] sum_bots(ss.take(j)) <= i32::MAX,
        decreases servers.len() - k,
    {
        let ghost t = ss.take(k + 1);
        assert(t.drop_last() =~= ss.take(k as int));
        assert(t.last() == servers@[k as int]@);
        players = players + servers[k].numplayers as i64;
        bots = bots + servers[k].numbots as i64;
        if players < -0x8000_0000i64 || players > 0x7fff_ffffi64 || bots < -0x8000_0000i64 || bots
            > 0x7fff_ffffi64 {
            assert(!(i32::MIN <= sum_players(ss.take(k + 1)) <= i32::MAX) || !(i32::MIN <= sum_bots(
                ss.take(k + 1),
            ) <= i32::MAX));
            return false;
        }
        k += 1;
    }
    assert(ss.take(servers.len() as int) =~= ss);
    true
}

proof fn lemma_index_increasing(ss: Seq<ServerModel>)
    ensures
        addresses_increasing(index_servers(ss)),
    decreases ss.len(),
{
    if ss.len() > 0 {
        lemma_index_increasing(ss.drop_last());
        lemma_insert_increasing(index_servers(ss.drop_last()), ss.last());
    }
}

proof fn lemma_index_covers(ss: Seq<ServerModel>)
    ensures
        forall|i: int|
            0 <= i < ss.len() ==> exists|k: int|
                0 <= k < index_servers(ss).len() && (#[trigger] index_servers(ss)[k]).address == (
                #[trigger] ss[i]).address,
    decreases ss.len(),
{
    if ss.len() > 0 {
        let d = ss.drop_last();
        let x = ss.last();
        lemma_index_covers(d);
        lemma_index_increasing(d);
        let o = index_servers(d);
        let out = index_servers(ss);
        lemma_insert_members(o, x);
        let px = choose|p: int| 0 <= p < out.len() && out[p] == x;
        assert forall|i: int| 0 <= i < ss.len() implies exists|k: int|
            0 <= k < out.len() && (#[trigger] out[k]).address == (#[trigger] ss[i]).address by {
            if i == ss.len() - 1 {
                assert(out[px].address == ss[i].address);
            } else {
                assert(ss[i] == d[i]);
                let m = choose|m: int| 0 <= m < o.len() && (#[trigger] o[m]).address == (#[trigger] d[i]).address;
                if o[m].address == x.address {
                    assert(out[px].address == ss[i].address);
                } else {
                    assert(out.contains(o[m]));
                    let q = choose|q: int| 0 <= q < out.len() && out[q] == o[m];
                    assert(out[q].address == ss[i].address);
                }
            }
        }
    }
}

proof fn lemma_index_last(ss: Seq<ServerModel>)
    ensures
        forall|k: int|
            0 <= k < index_servers(ss).len() ==> 0 <= last_index_of(ss, (#[trigger] index_servers(ss)[k]).address)
                < ss.len() && ss[last_index_of(ss, index_servers(ss)[k].address)] == index_servers(ss)[k],
    decreases ss.len(),
{
    if ss.len() > 0 {
        let d = ss.drop_last();
        let x = ss.last();
        lemma_index_last(d);
        lemma_index_increasing(d);
        let o = index_servers(d);
        let out = index_servers(ss);
        lemma_insert_members(o, x);
        assert forall|k: int| 0 <= k < out.len() implies 0 <= last_index_of(ss, (#[trigger] out[k]).address)
            < ss.len() && ss[last_index_of(ss, out[k].address)] == out[k] by {
            if out[k] != x {
                let e = out[k];
                assert(o.contains(e) && e.address != x.address);
                let m = choose|m: int| 0 <= m < o.len() && o[m] == e;
                assert(o[m] == e);
                let i = last_index_of(d, o[m].address);
                assert(ss[i] == d[i]);
            }
        }
    }
}

/// A refresh's snapshot is keyed by address: the addresses run in
/// strictly increasing order (so none occurs twice), every reported
/// address is there, and the entry kept for an address is the last one
/// reported for it.
pub proof fn law_snapshot_keyed_by_address(ss: Seq<ServerModel>)
    ensures
        addresses_increasing(index_servers(ss)),
        forall|i: int|
            0 <= i < ss.len() ==> exists|k: int|
                0 <= k < index_servers(ss).len() && (#[trigger] index_servers(ss)[k]).address == (
                #[trigger] ss[i]).address,
        forall|k: int|
            0 <= k < index_servers(ss).len() ==> 0 <= last_index_of(ss, (#[trigger] index_servers(ss)[k]).address)
                < ss.len() && ss[last_index_of(ss, index_servers(ss)[k].address)] == index_servers(ss)[k],
{
    lemma_index_increasing(ss);
    lemma_index_covers(ss);
    lemma_index_last(ss);
}

/// A refresh counts its active servers among all it counted: between
/// none and all of them.
pub proof fn law_active_within_total(ss: Seq<ServerModel>, epoch: u64)
    requires
        totals_fit(ss),
    ensures
        0 <= spec_assemble(ss, epoch).info.activeservers <= spec_assemble(ss, epoch).info.totalservers,
        spec_assemble(ss, epoch).info.totalservers == ss.len(),
{
    lemma_count_active_bounds(ss);
}

/// The list order is a strict order.
pub proof fn law_server_order_strict()
    ensures
        strict_order(server_order()),
{
    assert forall|a: ServerModel| !#[trigger] server_order()(a, a) by {
        lemma_text_lt_irreflexive(a.realname);
    }
    assert forall|a: ServerModel, b: ServerModel, c: ServerModel|
        #[trigger] server_order()(a, b) && #[trigger] server_order()(b, c) implies server_order()(a, c) by {
        if a.numplayers == b.numplayers && b.numplayers == c.numplayers {
            lemma_text_lt_transitive(c.realname, b.realname, a.realname);
        }
    }
}

/// The list order ranks servers: servers that neither comes before the
/// other are ranked the same.
pub proof fn law_server_order_ranks()
    ensures
        strict_weak_order(server_order()),
{
    law_server_order_strict();
    assert forall|a: ServerModel, b: ServerModel, c: ServerModel|
        #[trigger] server_order()(a, c) implies server_order()(a, b) || #[trigger] server_order()(b, c) by {
        if a.numplayers == b.numplayers && b.numplayers == c.numplayers && !text_lt(b.realname, a.realname)
            && !text_lt(c.realname, b.realname) {
            if a.realname != b.realname {
                lemma_text_lt_total(a.realname, b.realname);
                if c.realname != b.realname {
                    lemma_text_lt_total(c.realname, b.realname);
                    lemma_text_lt_transitive(a.realname, b.realname, c.realname);
                    lemma_text_lt_transitive(a.realname, c.realname, a.realname);
                } else {
                    lemma_text_lt_transitive(a.realname, b.realname, a.realname);
                }
                lemma_text_lt_irreflexive(a.realname);
            }
        }
    }
}

/// Servers the list ranks the same as any server `c` (as many players, the
/// same name) are listed in the order the snapshot holds them.
pub proof fn law_server_list_keeps_ties(ss: Seq<ServerModel>, c: ServerModel)
    ensures
        sort_stable(ss, server_order()).filter(tied_with(server_order(), c)) == ss.filter(
            tied_with(server_order(), c),
        ),
{
    law_server_order_ranks();
    law_sort_keeps_ties(ss, server_order(), c);
}

/// The list shows every server once, busier servers first and, among
/// servers with as many players, names from high to low.
pub proof fn law_server_list_order(ss: Seq<ServerModel>)
    ensures
        sort_stable(ss, server_order()).to_multiset() == ss.to_multiset(),
        forall|i: int, j: int|
            0 <= i < j < sort_stable(ss, server_order()).len() ==> {
                let a = #[trigger] sort_stable(ss, server_order())[i];
                let b = #[trigger] sort_stable(ss, server_order())[j];
                a.numplayers >= b.numplayers && (a.numplayers == b.numplayers ==> !text_lt(
                    a.realname,
                    b.realname,
                ))
            },
{
    law_sort_permutes(ss, server_order());
    law_server_order_strict();
    law_sort_sorted(ss, server_order());
    let r = sort_stable(ss, server_order());
    assert forall|i: int, j: int| 0 <= i < j < r.len() implies {
        let a = #[trigger] r[i];
        let b = #[trigger] r[j];
        a.numplayers >= b.numplayers && (a.numplayers == b.numplayers ==> !text_lt(a.realname, b.realname))
    } by {
        assert(!server_order()(r[j], r[i]));
    }
}

/// Builds the snapshot of a refresh made at `epoch`.
pub fn assemble_snapshot(servers: Vec<Server>, epoch: u64) -> (r: Snapshot)
    requires
        totals_fit(servers_model(servers@)),
    ensures
        r@ == spec_assemble(servers_model(servers@), epoch),
{
    let ghost ss = servers_model(servers@);
    let mut info = Info::default();
    info.lastupdate_epoch = epoch;
    let mut out: Vec<Server> = Vec::new();
    let mut active: i32 = 0;
    let mut total: i32 = 0;
    let mut players: i32 = 0;
    let mut bots: i32 = 0;
    proof { lemma_count_active_bounds(ss); }
    assert(ss.take(0) =~= Seq::<ServerModel>::empty());
    for s in it: servers.into_iter()
        invariant
            ss == servers_model(it.seq()),
            totals_fit(ss),
            it.index() <= ss.len(),
            servers_model(out@) == index_servers(ss.take(it.index() as int)),
            active as int == count_active(ss.take(it.index() as int)),
            total as int == it.index(),
            players as int == sum_players(ss.take(it.index() as int)),
            bots as int == sum_bots(ss.take(it.index() as int)),
    {
        let ghost i = it.index();
        let ghost t = ss.take(i + 1);
        assert(t.drop_last() =~= ss.take(i as int));
        assert(t.last() == s@);
        proof { lemma_count_active_bounds(t); }
        assert(i32::MIN <= sum_players(ss.take(i + 1)) <= i32::MAX);
        assert(i32::MIN <= sum_bots(ss.take(i + 1)) <= i32::MAX);
        if s.numplayers > 0 {
            active = active + 1;
        }
        total = total + 1;
        players = players + s.numplayers;
        bots = bots + s.numbots;
        insert_server(&mut out, s);
    }
    assert(ss.take(ss.len() as int) =~= ss);
    info.activeservers = active;
    info.totalservers = total;
    info.totalplayers = players;
    info.totalbots = bots;
    Snapshot { info, server: out }
}


/// The list order of servers: more players first, then names from high
/// to low; equal ones keep their address order.
pub open spec fn server_before(x: ServerModel, a: ServerModel) -> bool {
    x.numplayers > a.numplayers || (x.numplayers == a.numplayers && text_lt(a.realname, x.realname))
}

pub open spec fn server_order() -> spec_fn(ServerModel, ServerModel) -> bool {
    |x: ServerModel, a: ServerModel| server_before(x, a)
}

pub open spec fn refs_model(v: Seq<&Server>) -> Seq<ServerModel> {
    v.map_values(|r: &Server| r@)
}

/// The snapshot's servers in list order.
pub fn sorted_servers(snap: &Snapshot) -> (r: Vec<&Server>)
    ensures
        refs_model(r@) == sort_stable(servers_model(snap.server@), server_order()),
{
    let ghost ss = servers_model(snap.server@);
    let mut out: Vec<&Server> = Vec::new();
    let mut k: usize = 0;
    assert(ss.take(0) =~= Seq::<ServerModel>::empty());
    while k < snap.server.len()
        invariant
            ss == servers_model(snap.server@),
            k <= snap.server.len(),
            refs_model(out@) == sort_stable(ss.take(k as int), server_order()),
        decreases snap.server.len() - k,
    {
        let x: &Server = &snap.server[k];
        let ghost t = ss.take(k + 1);
        assert(t.drop_last() =~= ss.take(k as int));
        assert(t.last() == x@);
        let ghost sorted = refs_model(out@);
        let xn = chars_of(x.realname.as_str());
        let mut i: usize = 0;
        loop
            invariant
                i <= out.len(),
                sorted == refs_model(out@),
                xn@ == x.realname@,
                forall|j: int| 0 <= j < i ==> !server_before(x@, #[trigger] sorted[j]),
            ensures
                i <= out.len(),
                sorted == refs_model(out@),
                forall|j: int| 0 <= j < i ==> !server_before(x@, #[trigger] sorted[j]),
                i == out.len() || server_before(x@, sorted[i as int]),
            decreases out.len() - i,
        {
            if i == out.len() {
                break;
            }
            let a: &Server = out[i];
            assert(sorted[i as int] == a@);
            let an = chars_of(a.realname.as_str());
            let goes = x.numplayers > a.numplayers || (x.numplayers == a.numplayers && text_less(&an, &xn));
            if goes {
                break;
            }
            i += 1;
        }
        proof {
            if i < out.len() {
                assert(sorted[i as int] == out@[i as int]@);
            }
            lemma_insert_index(sorted, x@, server_order(), i as int);
        }
        out.insert(i, x);
        assert(refs_model(out@) =~= sorted.insert(i as int, x@));
        k += 1;
    }
    assert(ss.take(snap.server.len() as int) =~= ss);
    out
}

/// How a player's score is shown, with a tooltip for spectators and
/// players out of the game. Race times are shown as times, Last Man
/// Standing scores as ranks, Quake cooperative scores negated.
pub open spec fn spec_score_display(server: ServerModel, p: PlayerModel) -> (Seq<char>, Option<Seq<char>>) {
    if p.score == -666 || (p.ping == 1 && p.team == 0) {
        ("spec"@, Some("spectator"@))
    } else if p.score == -616 {
        ("oog"@, Some("out of game"@))
    } else if spec_is_time_label(server.scoreinfo.player.label) {
        (spec_score2time(p.score), None)
    } else if server.mode == "LMS"@ {
        if p.score > 255 || p.score == 0 {
            ("-"@, None)
        } else {
            (spec_ordinate(p.score), None)
        }
    } else if server.mode == "COOP"@ && server.mode2 == "QUAKE"@ {
        (int_text(-(p.score as int)), None)
    } else {
        (int_text(p.score as int), None)
    }
}

/// What a player's score column shows. Spectators (score -666, or ping 1
/// in team 0) show `spec` and players out of the game (-616) `oog`, each
/// with a tooltip; otherwise, under a time column (`fastest`, `time`) the
/// score is hundredths of a second shown as a time; in Last Man Standing a
/// score of 0 or above 255 shows `-` and any other an ordinal; a
/// Quake cooperative score is shown negated; any other score as its number.
pub proof fn law_score_shown(server: ServerModel, p: PlayerModel)
    ensures
        (p.score == -666 || (p.ping == 1 && p.team == 0)) ==> spec_score_display(server, p) == (
            "spec"@,
            Some("spectator"@),
        ),
        !(p.score == -666 || (p.ping == 1 && p.team == 0)) && p.score == -616 ==> spec_score_display(
            server,
            p,
        ) == ("oog"@, Some("out of game"@)),
        !(p.score == -666 || (p.ping == 1 && p.team == 0)) && p.score != -616 && (server.scoreinfo.player.label
            == "fastest"@ || server.scoreinfo.player.label == "time"@) ==> spec_score_display(server, p) == (
            spec_score2time(p.score),
            None::<Seq<char>>,
        ),
        !(p.score == -666 || (p.ping == 1 && p.team == 0)) && p.score != -616
            && server.scoreinfo.player.label != "fastest"@ && server.scoreinfo.player.label != "time"@
            && server.mode == "LMS"@ ==> spec_score_display(server, p) == (if p.score == 0 || p.score > 255 {
            "-"@
        } else {
            spec_ordinate(p.score)
        }, None::<Seq<char>>),
        !(p.score == -666 || (p.ping == 1 && p.team == 0)) && p.score != -616
            && server.scoreinfo.player.label != "fastest"@ && server.scoreinfo.player.label != "time"@
            && server.mode != "LMS"@ ==> spec_score_display(server, p) == (int_text(
            if server.mode == "COOP"@ && server.mode2 == "QUAKE"@ {
                -(p.score as int)
            } else {
                p.score as int
            },
        ), None::<Seq<char>>),
{
}

/// The score is shown negated (a Quake cooperative player's score that is
/// not shown as a spectator's, an out-of-game mark or a time).
pub open spec fn shows_negated(server: ServerModel, p: PlayerModel) -> bool {
    &&& !(p.score == -666 || (p.ping == 1 && p.team == 0))
    &&& p.score != -616
    &&& !spec_is_time_label(server.scoreinfo.player.label)
    &&& server.mode != "LMS"@
    &&& server.mode == "COOP"@ && server.mode2 == "QUAKE"@
}

/// Negating a shown score is defined for every score but `i32::MIN`.
pub open spec fn score_display_defined(server: ServerModel, p: PlayerModel) -> bool {
    shows_negated(server, p) ==> p.score != i32::MIN
}

/// How a player's score is shown.
pub fn player_score_display(server: &Server, p: &Player) -> (r: (String, Option<String>))
    requires
        score_display_defined(server@, p@),
    ensures
        (r.0@, opt_text_view(r.1)) == spec_score_display(server@, p@),
{
    if p.score == -666 || (p.ping == 1 && p.team == 0) {
        return ("spec".to_owned(), Some("spectator".to_owned()));
    }
    if p.score == -616 {
        return ("oog".to_owned(), Some("out of game".to_owned()));
    }
    if is_time_label(server.scoreinfo.player.label.as_str()) {
        return (score2time(p.score), None);
    }
    if is_text(server.mode.as_str(), "LMS") {
        if p.score > 255 || p.score == 0 {
            return ("-".to_owned(), None);
        }
        return (ordinate(p.score), None);
    }
    if is_text(server.mode.as_str(), "COOP") && is_text(server.mode2.as_str(), "QUAKE") {
        return (string_of(&int_chars(-(p.score as i64))), None);
    }
    (string_of(&int_chars(p.score as i64)), None)
}

/// The tag shown next to a server's mode: `OFFICIAL` for pure servers,
/// otherwise the mod's name (with a dot for InstaGib), `MODIFIED` for a
/// modified vanilla game.
pub open spec fn spec_mode_tag(s: ServerModel) -> (Seq<char>, bool) {
    if s.impure == 0 {
        ("OFFICIAL"@, false)
    } else if s.mode2 != "VANILLA"@ {
        (s.mode2, s.mode2 == "INSTAGIB"@)
    } else {
        ("MODIFIED"@, false)
    }
}

/// The tag shown next to a server's mode.
pub fn mode_tag(server: &Server) -> (r: (String, bool))
    ensures
        (r.0@, r.1) == spec_mode_tag(server@),
{
    if server.impure == 0 {
        ("OFFICIAL".to_owned(), false)
    } else if !is_text(server.mode2.as_str(), "VANILLA") {
        (server.mode2.clone(), is_text(server.mode2.as_str(), "INSTAGIB"))
    } else {
        ("MODIFIED".to_owned(), false)
    }
}


/// The host of a ban-list line `B <host>:` (a `:` with only whitespace
/// after it also ends the host); other lines give nothing.
pub open spec fn ban_host(line: Seq<char>) -> Option<Seq<char>> {
    if line.len() == 0 || line[0] != 'B' {
        None
    } else {
        let rest = trim_start_text(line.skip(1));
        let h = if rest.len() > 0 && rest.last() == ':' {
            Some(rest.drop_last())
        } else {
            match split_once(rest, ':') {
                Some((h, t)) => if trim_text(t).len() == 0 {
                    Some(h)
                } else {
                    None
                },
                None => None,
            }
        };
        match h {
            Some(h) => if trim_text(h).len() > 0 {
                Some(trim_text(h))
            } else {
                None
            },
            None => None,
        }
    }
}

/// The hosts of the lines, in order.
pub open spec fn ban_hosts(lines: Seq<Seq<char>>) -> Seq<Seq<char>>
    decreases lines.len(),
{
    if lines.len() == 0 {
        seq![]
    } else {
        ban_hosts(lines.drop_last()) + match ban_host(lines.last()) {
            Some(h) => seq![h],
            None => seq![],
        }
    }
}

/// The banned hosts of a `checkupdate.txt`.
pub open spec fn spec_parse_banned(text: Seq<char>) -> Seq<Seq<char>> {
    ban_hosts(text_lines(text))
}

pub open spec fn strings_view(v: Seq<String>) -> Seq<Seq<char>> {
    v.map_values(|s: String| s@)
}

fn line_ban_host(line: &[char]) -> (r: Option<Vec<char>>)
    ensures
        match ban_host(line@) {
            Some(h) => r matches Some(v) && v@ == h,
            None => r is None,
        },
{
    if line.len() == 0 || line[0] != 'B' {
        return None;
    }
    let tail = sub_chars(line, 1, line.len());
    assert(tail@ =~= line@.skip(1));
    let rest = trim_start_chars(&tail);
    let h: Option<Vec<char>> = if rest.len() > 0 && rest[rest.len() - 1] == ':' {
        let v = sub_chars(&rest, 0, rest.len() - 1);
        assert(v@ =~= rest@.drop_last());
        Some(v)
    } else {
        let i = find_char(&rest, ':');
        proof { lemma_first_index_bounds(rest@, ':'); }
        if i < rest.len() {
            let t = sub_chars(&rest, i + 1, rest.len());
            assert(t@ =~= rest@.skip(i + 1));
            if trim_chars(&t).len() == 0 {
                let v = sub_chars(&rest, 0, i);
                assert(v@ =~= rest@.take(i as int));
                Some(v)
            } else {
                None
            }
        } else {
            None
        }
    };
    match h {
        Some(h) => {
            let t = trim_chars(&h);
            if t.len() > 0 {
                Some(t)
            } else {
                None
            }
        },
        None => None,
    }
}

/// Reads the banned hosts of a ban list.
pub fn parse_banned(text: &str) -> (r: Vec<String>)
    ensures
        strings_view(r@) == spec_parse_banned(text@),
{
    let c = chars_of(text);
    let pieces = split_chars(&c, '\n');
    let ghost p = pieces_view_char(pieces@);
    proof { lemma_split_on_nonempty(c@, '\n'); }
    let ghost lines = text_lines(c@);
    let ghost body = p.drop_last().map_values(|l: Seq<char>| strip_cr(l));
    let mut out: Vec<String> = Vec::new();
    let n = pieces.len();
    let mut i: usize = 0;
    assert(body.take(0) =~= Seq::<Seq<char>>::empty());
    while i + 1 < n
        invariant
            n == pieces.len(),
            n >= 1,
            p == pieces_view_char(pieces@),
            body == p.drop_last().map_values(|l: Seq<char>| strip_cr(l)),
            i + 1 <= n,
            strings_view(out@) == ban_hosts(body.take(i as int)),
        decreases n - i,
    {
        let piece = &pieces[i];
        let line: Vec<char> = if piece.len() > 0 && piece[piece.len() - 1] == '\r' {
            sub_chars(piece, 0, piece.len() - 1)
        } else {
            sub_chars(piece, 0, piece.len())
        };
        assert(line@ =~= strip_cr(p[i as int]));
        assert(body[i as int] == line@);
        let ghost t = body.take(i + 1);
        assert(t.drop_last() =~= body.take(i as int));
        let ghost before = strings_view(out@);
        match line_ban_host(&line) {
            Some(h) => {
                out.push(string_of(&h));
                assert(strings_view(out@) =~= before + seq![h@]);
            },
            None => {},
        }
        assert(strings_view(out@) =~= ban_hosts(t));
        i += 1;
    }
    assert(body.take(i as int) =~= body);
    let last = &pieces[n - 1];
    assert(last@ == p.last());
    if last.len() > 0 {
        let ghost before = strings_view(out@);
        let ghost full = body.push(p.last());
        assert(full.drop_last() =~= body);
        match line_ban_host(last) {
            Some(h) => {
                out.push(string_of(&h));
                assert(strings_view(out@) =~= before + seq![h@]);
            },
            None => {},
        }
        assert(strings_view(out@) =~= ban_hosts(full));
    }
    out
}

} // verus!
