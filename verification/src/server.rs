//! A server's status reply turned into the list's server entry.

use vstd::prelude::*;

use crate::bindings::spec_utf8_lossy;
use crate::bindings::utf8_lossy;
use crate::model::{
    is_text, is_time_label, keys_increasing, map_team, players_model, spec_is_time_label,
    spec_map_team, Player, PlayerModel, Server, ServerModel,
};
use crate::protocol::{addr_text_of, ip_text_of, RawPlayer, RawPlayerModel, RawStatus, RawStatusModel, Rules};
use crate::qcstatus::{
    int_or_zero, law_team_values_in_team_order, parse_qcstatus, qc_readable, spec_qcstatus, QcModel,
    QcParsed,
};
use crate::qfont::{format_name, spec_format_name};
use crate::sorting::{
    law_sort_keeps_counts, law_sort_keeps_ties, lemma_insert_index, sort_stable, strict_weak_order,
    tied_with,
};
use crate::text::{
    chars_of, find_char, lemma_first_index_bounds, parse_i32, parse_i64, spec_parse_i64, split_once,
    string_of, sub_chars,
};

verus! {

/// The full name of a game mode; unknown modes keep their tag.
pub open spec fn spec_mode_full(mode: Seq<char>) -> Seq<char> {
    if mode == "ARENA"@ {
        "Duel Arena"@
    } else if mode == "AS"@ {
        "Assault"@
    } else if mode == "BR"@ {
        "Battle Royale"@
    } else if mode == "CA"@ {
        "Clan Arena"@
    } else if mode == "CONQUEST"@ {
        "Conquest"@
    } else if mode == "COOP"@ {
        "Cooperative"@
    } else if mode == "CQ"@ {
        "Conquest"@
    } else if mode == "CTF"@ {
        "Capture the Flag"@
    } else if mode == "CTS"@ {
        "Race - Complete the Stage"@
    } else if mode == "DM"@ {
        "Deathmatch"@
    } else if mode == "DOM"@ {
        "Domination"@
    } else if mode == "DOTC"@ {
        "Defense of the Core (MOBA)"@
    } else if mode == "DUEL"@ {
        "Duel"@
    } else if mode == "FT"@ {
        "Freeze Tag"@
    } else if mode == "INF"@ {
        "Infection"@
    } else if mode == "INV"@ {
        "Invasion"@
    } else if mode == "JAILBREAK"@ {
        "Jailbreak"@
    } else if mode == "JB"@ {
        "Jailbreak"@
    } else if mode == "KA"@ {
        "Keepaway"@
    } else if mode == "KH"@ {
        "Key Hunt"@
    } else if mode == "LMS"@ {
        "Last Man Standing"@
    } else if mode == "MAYHEM"@ {
        "Mayhem"@
    } else if mode == "NB"@ {
        "Nexball"@
    } else if mode == "ONS"@ {
        "Onslaught"@
    } else if mode == "RACE"@ {
        "Race"@
    } else if mode == "RC"@ {
        "Race"@
    } else if mode == "RUNE"@ {
        "Runematch"@
    } else if mode == "RUNEMATCH"@ {
        "Runematch"@
    } else if mode == "SNAFU"@ {
        "???"@
    } else if mode == "SURV"@ {
        "Survival"@
    } else if mode == "TDM"@ {
        "Team Deathmatch"@
    } else if mode == "TKA"@ {
        "Team Keepaway"@
    } else if mode == "TMAYHEM"@ {
        "Team Mayhem"@
    } else if mode == "VIP"@ {
        "Very Important Player"@
    } else {
        mode
    }
}

/// The full name of a game mode.
pub fn mode_full(mode: &str) -> (r: String)
    ensures
        r@ == spec_mode_full(mode@),
{
    if is_text(mode, "ARENA") {
        "Duel Arena".to_owned()
    } else if is_text(mode, "AS") {
        "Assault".to_owned()
    } else if is_text(mode, "BR") {
        "Battle Royale".to_owned()
    } else if is_text(mode, "CA") {
        "Clan Arena".to_owned()
    } else if is_text(mode, "CONQUEST") {
        "Conquest".to_owned()
    } else if is_text(mode, "COOP") {
        "Cooperative".to_owned()
    } else if is_text(mode, "CQ") {
        "Conquest".to_owned()
    } else if is_text(mode, "CTF") {
        "Capture the Flag".to_owned()
    } else if is_text(mode, "CTS") {
        "Race - Complete the Stage".to_owned()
    } else if is_text(mode, "DM") {
        "Deathmatch".to_owned()
    } else if is_text(mode, "DOM") {
        "Domination".to_owned()
    } else if is_text(mode, "DOTC") {
        "Defense of the Core (MOBA)".to_owned()
    } else if is_text(mode, "DUEL") {
        "Duel".to_owned()
    } else if is_text(mode, "FT") {
        "Freeze Tag".to_owned()
    } else if is_text(mode, "INF") {
        "Infection".to_owned()
    } else if is_text(mode, "INV") {
        "Invasion".to_owned()
    } else if is_text(mode, "JAILBREAK") {
        "Jailbreak".to_owned()
    } else if is_text(mode, "JB") {
        "Jailbreak".to_owned()
    } else if is_text(mode, "KA") {
        "Keepaway".to_owned()
    } else if is_text(mode, "KH") {
        "Key Hunt".to_owned()
    } else if is_text(mode, "LMS") {
        "Last Man Standing".to_owned()
    } else if is_text(mode, "MAYHEM") {
        "Mayhem".to_owned()
    } else if is_text(mode, "NB") {
        "Nexball".to_owned()
    } else if is_text(mode, "ONS") {
        "Onslaught".to_owned()
    } else if is_text(mode, "RACE") {
        "Race".to_owned()
    } else if is_text(mode, "RC") {
        "Race".to_owned()
    } else if is_text(mode, "RUNE") {
        "Runematch".to_owned()
    } else if is_text(mode, "RUNEMATCH") {
        "Runematch".to_owned()
    } else if is_text(mode, "SNAFU") {
        "???".to_owned()
    } else if is_text(mode, "SURV") {
        "Survival".to_owned()
    } else if is_text(mode, "TDM") {
        "Team Deathmatch".to_owned()
    } else if is_text(mode, "TKA") {
        "Team Keepaway".to_owned()
    } else if is_text(mode, "TMAYHEM") {
        "Team Mayhem".to_owned()
    } else if is_text(mode, "VIP") {
        "Very Important Player".to_owned()
    } else {
        mode.to_owned()
    }
}

/// The text of a rule (its bytes decoded as UTF-8, invalid sequences
/// replaced); empty when the reply has no such rule.
pub open spec fn rule_text(rules: Map<Seq<char>, Seq<u8>>, key: Seq<char>) -> Seq<char> {
    if rules.contains_key(key) {
        spec_utf8_lossy(rules[key])
    } else {
        seq![]
    }
}

/// The bytes of a rule; empty when there is no such rule.
pub open spec fn rule_bytes(rules: Map<Seq<char>, Seq<u8>>, key: Seq<char>) -> Seq<u8> {
    if rules.contains_key(key) {
        rules[key]
    } else {
        seq![]
    }
}

/// A rule read as an `i32`, 0 when absent or not a number.
pub open spec fn rule_num(rules: Map<Seq<char>, Seq<u8>>, key: Seq<char>) -> i32 {
    int_or_zero(rule_text(rules, key))
}

/// The text of a rule.
pub fn rule_str(rules: &Rules, key: &str) -> (r: String)
    ensures
        r@ == rule_text(rules@, key@),
{
    match rules.get(key) {
        Some(v) => utf8_lossy(v.as_slice()),
        None => String::new(),
    }
}

/// A rule read as an `i32`, 0 when absent or not a number.
pub fn rule_i32(rules: &Rules, key: &str) -> (r: i32)
    ensures
        r == rule_num(rules@, key@),
{
    let s = rule_str(rules, key);
    match parse_i32(&chars_of(s.as_str())) {
        Some(v) => v,
        None => 0,
    }
}

/// The player as the list shows it: team colours mapped; spectators
/// (score -666, out of game -616, or named `unconnected`) without a team
/// and last (`prio` 2); players without a team after the others (`prio` 1)
/// in team games and, with a race-time column, while they have no time.
pub open spec fn spec_convert_player(p: RawPlayerModel, qc: QcModel) -> PlayerModel {
    let name = spec_format_name(p.name);
    let team = spec_map_team(p.team);
    if p.score == -666 || p.score == -616 || name == "unconnected"@ {
        PlayerModel { name, score: p.score, ping: p.ping, team: 0, prio: 2 }
    } else if team == 0 && ((p.score == 0 && spec_is_time_label(qc.scoreinfo.player.label))
        || qc.teamplay != 0) {
        PlayerModel { name, score: p.score, ping: p.ping, team, prio: 1 }
    } else {
        PlayerModel { name, score: p.score, ping: p.ping, team, prio: 0 }
    }
}

/// Turns a status reply's player into the list's player.
pub fn convert_player(p: &RawPlayer, qc: &QcParsed) -> (r: Player)
    ensures
        r@ == spec_convert_player(p@, qc@),
{
    let name = format_name(p.name.as_slice());
    let mut team = map_team(p.team);
    let prio = if p.score == -666 || p.score == -616 || is_text(name.as_str(), "unconnected") {
        team = 0;
        2
    } else if team == 0 && ((p.score == 0 && is_time_label(qc.scoreinfo.player.label.as_str()))
        || qc.teamplay != 0) {
        1
    } else {
        0
    };
    Player { name, score: p.score, ping: p.ping, team, prio }
}

/// The order of a server's players. With `by_score` (a lower-is-better
/// player column): by priority, score, team, all increasing. Otherwise by
/// priority, then team, then score from high to low.
pub open spec fn player_before(by_score: bool, x: PlayerModel, a: PlayerModel) -> bool {
    if by_score {
        x.prio < a.prio || (x.prio == a.prio && (x.score < a.score || (x.score == a.score
            && x.team < a.team)))
    } else {
        x.prio < a.prio || (x.prio == a.prio && (x.team < a.team || (x.team == a.team && x.score
            > a.score)))
    }
}

pub open spec fn player_order_rel(by_score: bool) -> spec_fn(PlayerModel, PlayerModel) -> bool {
    |x: PlayerModel, a: PlayerModel| player_before(by_score, x, a)
}

/// The player order ranks players: it is a strict order, and players
/// that neither comes before the other are ranked the same.
pub proof fn law_player_order_ranks(by_score: bool)
    ensures
        strict_weak_order(player_order_rel(by_score)),
{
}

/// A server's entry keeps its team values in increasing team order, each
/// team once, so that its team score rows come in team order.
pub proof fn law_entry_team_values_in_order(raw: RawStatusModel, geo: Seq<char>, banned: Seq<Seq<char>>)
    ensures
        spec_build_server(raw, geo, banned) matches Some(s) ==> {
            &&& keys_increasing(s.scoreinfo.team.pri.score)
            &&& keys_increasing(s.scoreinfo.team.sec.score)
        },
{
    law_team_values_in_team_order(rule_text(raw.rules, "qcstatus"@));
}

/// The counts of a server's entry: the players shown are the `clients`
/// rule (or, when it says 0, the number of player lines) less the bots,
/// never below 0; the bots are the `bots` rule, never below 0; the slots
/// are the `sv_maxclients` rule, never below 0.
pub proof fn law_entry_counts(raw: RawStatusModel, geo: Seq<char>, banned: Seq<Seq<char>>)
    ensures
        spec_build_server(raw, geo, banned) matches Some(s) ==> {
            &&& s.numbots as int == (if rule_num(raw.rules, "bots"@) < 0 {
                0
            } else {
                rule_num(raw.rules, "bots"@) as int
            })
            &&& s.numplayers as int == (if listed_players(raw) - s.numbots < 0 {
                0
            } else {
                listed_players(raw) - s.numbots
            })
            &&& raw.players.len() <= i32::MAX ==> listed_players(raw) == (if rule_num(raw.rules, "clients"@)
                == 0 && raw.players.len() > 0 {
                raw.players.len() as int
            } else {
                rule_num(raw.rules, "clients"@) as int
            })
            &&& s.maxplayers as int == (if rule_num(raw.rules, "sv_maxclients"@) < 0 {
                0
            } else {
                rule_num(raw.rules, "sv_maxclients"@) as int
            })
            &&& s.numplayers + s.numbots >= listed_players(raw)
        },
{
    if spec_build_server(raw, geo, banned) is Some {
        let s = spec_build_server(raw, geo, banned)->Some_0;
        let nb = bot_count(raw);
        let np = listed_players(raw) - nb;
        assert(s.numbots == nb);
        assert(0 <= nb);
        if np >= 0 {
            assert(np <= i32::MAX);
            assert((np as i32) as int == np);
        }
    }
}

/// The other fields of a server's entry: the name and map are the
/// `hostname` and `mapname` rules with their colour codes read; the mod
/// is the `modname` rule; version, purity, slots, flags, mod name and
/// score layout come from the `qcstatus` rule; the spectators are the
/// reply's players that score -666 or are unconnected; and a
/// deathmatch with exactly two players besides the spectators is shown as
/// a duel.
pub proof fn law_entry_fields(raw: RawStatusModel, geo: Seq<char>, banned: Seq<Seq<char>>)
    ensures
        spec_build_server(raw, geo, banned) matches Some(s) ==> {
            let qc = spec_qcstatus(rule_text(raw.rules, "qcstatus"@));
            &&& s.realname == spec_format_name(rule_bytes(raw.rules, "hostname"@))
            &&& s.map == spec_format_name(rule_bytes(raw.rules, "mapname"@))
            &&& s.gamedir == rule_text(raw.rules, "modname"@)
            &&& s.version == qc.version
            &&& s.mode2 == qc.mode2
            &&& s.impure == qc.impure
            &&& s.slots == qc.slots
            &&& s.fballowed == qc.fballowed
            &&& s.teamplay == qc.teamplay
            &&& s.stats == qc.stats
            &&& s.scoreinfo == qc.scoreinfo
            &&& s.numspectators as int == count_spectators(reply_players(raw)) as i32
            &&& (qc.mode == "DM"@ && s.numplayers - s.numspectators == 2 ==> s.mode == "DUEL"@)
            &&& (qc.mode != "DM"@ || s.numplayers - s.numspectators != 2 ==> s.mode == qc.mode)
            &&& s.modefull == spec_mode_full(s.mode)
            &&& (s.enc, s.d0id) == spec_d0(rule_text(raw.rules, "d0_blind_id"@))
        },
{
}

/// The players of the reply as the list holds them before sorting.
pub open spec fn reply_players(raw: RawStatusModel) -> Seq<PlayerModel> {
    let qc = spec_qcstatus(rule_text(raw.rules, "qcstatus"@));
    raw.players.map_values(|p: RawPlayerModel| spec_convert_player(p, qc))
}

/// The order the list gives the reply's players.
pub open spec fn reply_order(raw: RawStatusModel) -> spec_fn(PlayerModel, PlayerModel) -> bool {
    player_order_rel(spec_qcstatus(rule_text(raw.rules, "qcstatus"@)).player_order != 0)
}

/// A server's entry lists the reply's players sorted: players ranked the
/// same as any player `c` keep the order they have in the reply, and the
/// sorted players hold as many spectators as the reply.
pub proof fn law_players_keep_reply_order(
    raw: RawStatusModel,
    geo: Seq<char>,
    banned: Seq<Seq<char>>,
    c: PlayerModel,
)
    ensures
        spec_build_server(raw, geo, banned) matches Some(s) ==> {
            &&& s.players.filter(tied_with(reply_order(raw), c)) == reply_players(raw).filter(
                tied_with(reply_order(raw), c),
            )
            &&& count_spectators(s.players) == count_spectators(reply_players(raw))
        },
{
    let rel = reply_order(raw);
    let conv = reply_players(raw);
    law_player_order_ranks(spec_qcstatus(rule_text(raw.rules, "qcstatus"@)).player_order != 0);
    law_sort_keeps_ties(conv, rel, c);
    let sp = |p: PlayerModel| is_spectator(p);
    law_sort_keeps_counts(conv, rel, sp);
    lemma_spectators_filter(conv);
    lemma_spectators_filter(sort_stable(conv, rel));
    if spec_build_server(raw, geo, banned) is Some {
        assert(spec_build_server(raw, geo, banned)->Some_0.players == sort_stable(conv, rel));
    }
}

/// The spectators of `s` are those its spectator filter keeps.
proof fn lemma_spectators_filter(s: Seq<PlayerModel>)
    ensures
        count_spectators(s) == s.filter(|p: PlayerModel| is_spectator(p)).len(),
    decreases s.len(),
{
    let sp = |p: PlayerModel| is_spectator(p);
    if s.len() > 0 {
        lemma_spectators_filter(s.drop_last());
        assert(s.drop_last().push(s.last()) =~= s);
        s.drop_last().lemma_filter_push(s.last(), sp);
    } else {
        assert(s.filter(sp) =~= s) by {
            reveal(Seq::filter);
        }
    }
}

fn player_goes_before(by_score: bool, x: &Player, a: &Player) -> (r: bool)
    ensures
        r == player_before(by_score, x@, a@),
{
    if by_score {
        x.prio < a.prio || (x.prio == a.prio && (x.score < a.score || (x.score == a.score && x.team
            < a.team)))
    } else {
        x.prio < a.prio || (x.prio == a.prio && (x.team < a.team || (x.team == a.team && x.score
            > a.score)))
    }
}

/// Whether a player counts as a spectator for the player count.
pub open spec fn is_spectator(p: PlayerModel) -> bool {
    p.score == -666 || p.name == "unconnected"@
}

pub open spec fn count_spectators(s: Seq<PlayerModel>) -> nat
    decreases s.len(),
{
    if s.len() == 0 {
        0
    } else {
        count_spectators(s.drop_last()) + if is_spectator(s.last()) { 1nat } else { 0nat }
    }
}

/// The `d0_blind_id` rule: the encryption level and the key id (`0` when
/// the rule is empty or has no key).
pub open spec fn spec_d0(d0: Seq<char>) -> (i32, Seq<char>) {
    if d0.len() == 0 {
        (0, "0"@)
    } else {
        match split_once(d0, ' ') {
            Some((e, rest)) => (int_or_zero(e), rest),
            None => (int_or_zero(d0), "0"@),
        }
    }
}

fn d0_fields(d0: &[char]) -> (r: (i32, String))
    ensures
        (r.0, r.1@) == spec_d0(d0@),
{
    if d0.len() == 0 {
        return (0, "0".to_owned());
    }
    let i = find_char(d0, ' ');
    proof { lemma_first_index_bounds(d0@, ' '); }
    if i < d0.len() {
        let e = sub_chars(d0, 0, i);
        let rest = sub_chars(d0, i + 1, d0.len());
        assert(e@ =~= d0@.take(i as int));
        assert(rest@ =~= d0@.skip(i + 1));
        let n = match parse_i32(&e) {
            Some(v) => v,
            None => 0,
        };
        (n, string_of(&rest))
    } else {
        let n = match parse_i32(d0) {
            Some(v) => v,
            None => 0,
        };
        (n, "0".to_owned())
    }
}

/// The player count before bots are taken off: the `clients` rule, or the
/// number of player lines when the rule says 0.
pub open spec fn listed_players(raw: RawStatusModel) -> i32 {
    let np0 = rule_num(raw.rules, "clients"@);
    if np0 == 0 && raw.players.len() > 0 {
        raw.players.len() as i32
    } else {
        np0
    }
}

pub open spec fn bot_count(raw: RawStatusModel) -> i32 {
    let b = rule_num(raw.rules, "bots"@);
    if b < 0 { 0 } else { b }
}

/// A banned server, one reporting a game version above 65535 and one
/// without a hostname are left out of the list; any other reply gives an
/// entry under the reply's address, with no negative player, bot or slot
/// count.
pub proof fn law_build_server(raw: RawStatusModel, geo: Seq<char>, banned: Seq<Seq<char>>)
    ensures
        banned.contains(ip_text_of(raw.address)) ==> spec_build_server(raw, geo, banned) is None,
        rule_bytes(raw.rules, "hostname"@).len() == 0 ==> spec_build_server(raw, geo, banned) is None,
        (spec_parse_i64(rule_text(raw.rules, "gameversion"@)) matches Some(g) && g > 65535) ==> spec_build_server(
            raw,
            geo,
            banned,
        ) is None,
        spec_build_server(raw, geo, banned) is None <==> (banned.contains(ip_text_of(raw.address))
            || spec_gameversion(raw.rules) > 65535 || rule_bytes(raw.rules, "hostname"@).len() == 0),
        spec_build_server(raw, geo, banned) matches Some(s) ==> {
            &&& s.address == addr_text_of(raw.address)
            &&& s.geo == geo
            &&& s.numplayers >= 0
            &&& s.numbots >= 0
            &&& s.maxplayers >= 0
        },
{
}

/// Whether `build_server` is defined on `raw` with the ban list `banned`
/// (see `build_server_defined`).
pub fn build_server_ok(raw: &RawStatus, banned: &[String]) -> (r: bool)
    ensures
        r == build_server_defined(raw@, texts_view(banned@)),
{
    let n = raw.address.ip.len();
    if n != 4 && n != 16 {
        return false;
    }
    let ghost rv = raw@;
    let ip = raw.address.ip_text();
    let mut bi: usize = 0;
    while bi < banned.len()
        invariant
            bi <= banned.len(),
            rv == raw@,
            rv.address.0.len() == 4 || rv.address.0.len() == 16,
            ip@ == ip_text_of(rv.address),
            forall|j: int| 0 <= j < bi ==> (#[trigger] banned@[j])@ != ip@,
        decreases banned.len() - bi,
    {
        if banned[bi] == ip {
            assert(texts_view(banned@)[bi as int] == ip@);
            assert(texts_view(banned@).contains(ip_text_of(rv.address)));
            return true;
        }
        bi += 1;
    }
    assert(!texts_view(banned@).contains(ip@)) by {
        if texts_view(banned@).contains(ip@) {
            let j = choose|j: int| 0 <= j < banned@.len() && texts_view(banned@)[j] == ip@;
            assert(banned@[j]@ != ip@);
        }
    }
    let gvs = rule_str(&raw.rules, "gameversion");
    let gameversion: i64 = match parse_i64(&chars_of(gvs.as_str())) {
        Some(v) => v,
        None => 0,
    };
    if gameversion > 65535 {
        return true;
    }
    if raw.players.len() > 0x7fff_ffff {
        return false;
    }
    let mut numbots = rule_i32(&raw.rules, "bots");
    if numbots < 0 {
        numbots = 0;
    }
    let mut numplayers = rule_i32(&raw.rules, "clients");
    if numplayers == 0 && raw.players.len() > 0 {
        numplayers = raw.players.len() as i32;
    }
    if (numplayers as i64) - (numbots as i64) < -0x8000_0000i64 {
        return false;
    }
    let host_empty = match raw.rules.get("hostname") {
        Some(v) => v.len() == 0,
        None => true,
    };
    if host_empty {
        return true;
    }
    let qcs = rule_str(&raw.rules, "qcstatus");
    crate::qcstatus::qc_readable_check(qcs.as_str())
}

/// The game version a reply reports (0 when it reports none that reads).
pub open spec fn spec_gameversion(rules: Map<Seq<char>, Seq<u8>>) -> i64 {
    match spec_parse_i64(rule_text(rules, "gameversion"@)) {
        Some(v) => v,
        None => 0,
    }
}

/// The replies `build_server` is defined on, with the ban list `banned`:
/// the address is an IPv4 or IPv6 one; and unless the reply is left out as
/// banned or too new, taking the bots off the player count does not go
/// below `i32::MIN` and, when there is a hostname, the `qcstatus` rule can
/// be read.
pub open spec fn build_server_defined(raw: RawStatusModel, banned: Seq<Seq<char>>) -> bool {
    &&& raw.address.0.len() == 4 || raw.address.0.len() == 16
    &&& !(banned.contains(ip_text_of(raw.address)) || spec_gameversion(raw.rules) > 65535) ==> {
        &&& raw.players.len() <= i32::MAX
        &&& listed_players(raw) - bot_count(raw) >= i32::MIN
        &&& (rule_bytes(raw.rules, "hostname"@).len() == 0 || qc_readable(
            rule_text(raw.rules, "qcstatus"@),
        ))
    }
}

pub open spec fn texts_view(s: Seq<String>) -> Seq<Seq<char>> {
    s.map_values(|x: String| x@)
}

/// The list's entry for a status reply, or nothing: banned servers,
/// servers reporting a game version above 65535 and servers without a
/// hostname are left out.
pub open spec fn spec_build_server(raw: RawStatusModel, geo: Seq<char>, banned: Seq<Seq<char>>) -> Option<ServerModel> {
    let rules = raw.rules;
    let gv = spec_gameversion(rules);
    let host = rule_bytes(rules, "hostname"@);
    if banned.contains(ip_text_of(raw.address)) || gv > 65535 || host.len() == 0 {
        None
    } else {
        let numbots = bot_count(raw);
        let np = listed_players(raw) - numbots;
        let numplayers: i32 = if np < 0 { 0 } else { np as i32 };
        let mp = rule_num(rules, "sv_maxclients"@);
        let maxplayers: i32 = if mp < 0 { 0 } else { mp };
        let (enc, d0id) = spec_d0(rule_text(rules, "d0_blind_id"@));
        let qc = spec_qcstatus(rule_text(rules, "qcstatus"@));
        let conv = raw.players.map_values(|p: RawPlayerModel| spec_convert_player(p, qc));
        let numspectators = count_spectators(conv) as i32;
        let mode = if qc.mode == "DM"@ && numplayers - numspectators == 2 {
            "DUEL"@
        } else {
            qc.mode
        };
        Some(
            ServerModel {
                address: addr_text_of(raw.address),
                realname: spec_format_name(host),
                map: spec_format_name(rule_bytes(rules, "mapname"@)),
                geo,
                version: qc.version,
                gamedir: rule_text(rules, "modname"@),
                mode,
                modefull: spec_mode_full(mode),
                mode2: qc.mode2,
                impure: qc.impure,
                slots: qc.slots,
                numplayers,
                maxplayers,
                numbots,
                numspectators,
                enc,
                d0id,
                fballowed: qc.fballowed,
                teamplay: qc.teamplay,
                stats: qc.stats,
                scoreinfo: qc.scoreinfo,
                players: sort_stable(conv, player_order_rel(qc.player_order != 0)),
            },
        )
    }
}

pub open spec fn opt_server_view(s: Option<Server>) -> Option<ServerModel> {
    match s {
        Some(s) => Some(s@),
        None => None,
    }
}

/// Builds the list's entry for a server's status reply; `geo` is its
/// country code and `banned` the banned addresses.
pub fn build_server(raw: RawStatus, geo: String, banned: &[String]) -> (r: Option<Server>)
    requires
        build_server_defined(raw@, texts_view(banned@)),
    ensures
        opt_server_view(r) == spec_build_server(raw@, geo@, texts_view(banned@)),
{
    let ghost rv = raw@;
    let ip = raw.address.ip_text();
    let mut bi: usize = 0;
    while bi < banned.len()
        invariant
            bi <= banned.len(),
            rv == raw@,
            ip@ == ip_text_of(rv.address),
            forall|j: int| 0 <= j < bi ==> (#[trigger] banned@[j])@ != ip@,
        decreases banned.len() - bi,
    {
        if banned[bi] == ip {
            assert(texts_view(banned@)[bi as int] == ip@);
            assert(texts_view(banned@).contains(ip_text_of(rv.address)));
            return None;
        }
        bi += 1;
    }
    assert(!texts_view(banned@).contains(ip@)) by {
        if texts_view(banned@).contains(ip@) {
            let j = choose|j: int| 0 <= j < banned@.len() && texts_view(banned@)[j] == ip@;
            assert(banned@[j]@ != ip@);
        }
    }
    let gvs = rule_str(&raw.rules, "gameversion");
    let gameversion: i64 = match parse_i64(&chars_of(gvs.as_str())) {
        Some(v) => v,
        None => 0,
    };
    if gameversion > 65535 {
        return None;
    }
    let mut numbots = rule_i32(&raw.rules, "bots");
    if numbots < 0 {
        numbots = 0;
    }
    let mut numplayers = rule_i32(&raw.rules, "clients");
    if numplayers == 0 && raw.players.len() > 0 {
        numplayers = raw.players.len() as i32;
    }
    numplayers = numplayers - numbots;
    if numplayers < 0 {
        numplayers = 0;
    }
    let mut maxplayers = rule_i32(&raw.rules, "sv_maxclients");
    if maxplayers < 0 {
        maxplayers = 0;
    }
    let host: Vec<u8> = match raw.rules.get("hostname") {
        Some(v) => {
            let h = crate::text::sub_bytes(v.as_slice(), 0, v.len());
            assert(h@ =~= v@);
            h
        },
        None => Vec::new(),
    };
    assert(host@ == rule_bytes(rv.rules, "hostname"@));
    if host.len() == 0 {
        return None;
    }
    let d0 = rule_str(&raw.rules, "d0_blind_id");
    let (enc, d0id) = d0_fields(&chars_of(d0.as_str()));
    let qcs = rule_str(&raw.rules, "qcstatus");
    let parsed = parse_qcstatus(qcs.as_str(), numplayers);
    let ghost qm = parsed@;
    let by_score = parsed.player_order != 0;
    let ghost rel = player_order_rel(by_score);
    let ghost conv = rv.players.map_values(|p: RawPlayerModel| spec_convert_player(p, qm));
    let mut players: Vec<Player> = Vec::new();
    let mut nspec: usize = 0;
    let mut k: usize = 0;
    assert(conv.take(0) =~= Seq::<PlayerModel>::empty());
    while k < raw.players.len()
        invariant
            k <= raw.players.len(),
            rv == raw@,
            qm == parsed@,
            rel == player_order_rel(by_score),
            by_score == (parsed.player_order != 0),
            conv == rv.players.map_values(|p: RawPlayerModel| spec_convert_player(p, qm)),
            conv.len() == raw.players.len(),
            players_model(players@) == sort_stable(conv.take(k as int), rel),
            nspec as int == count_spectators(conv.take(k as int)),
            nspec <= k,
            raw.players.len() <= i32::MAX,
        decreases raw.players.len() - k,
    {
        let p = convert_player(&raw.players[k], &parsed);
        assert(p@ == conv[k as int]);
        let ghost t = conv.take(k + 1);
        assert(t.drop_last() =~= conv.take(k as int));
        if p.score == -666 || is_text(p.name.as_str(), "unconnected") {
            nspec = nspec + 1;
        }
        let ghost sorted = players_model(players@);
        let mut i: usize = 0;
        while i < players.len() && !player_goes_before(by_score, &p, &players[i])
            invariant
                i <= players.len(),
                sorted == players_model(players@),
                forall|j: int| 0 <= j < i ==> !player_before(by_score, p@, #[trigger] sorted[j]),
            decreases players.len() - i,
        {
            assert(sorted[i as int] == players@[i as int]@);
            i += 1;
        }
        proof {
            if i < players.len() {
                assert(sorted[i as int] == players@[i as int]@);
            }
            lemma_insert_index(sorted, p@, rel, i as int);
        }
        let ghost pm = p@;
        players.insert(i, p);
        assert(players_model(players@) =~= sorted.insert(i as int, pm));
        k += 1;
    }
    assert(conv.take(raw.players.len() as int) =~= conv);
    let numspectators = nspec as i32;
    let mut mode = parsed.mode;
    if is_text(mode.as_str(), "DM") && numplayers - numspectators == 2 {
        mode = "DUEL".to_owned();
    }
    let modefull = mode_full(mode.as_str());
    let mapb: Vec<u8> = match raw.rules.get("mapname") {
        Some(v) => {
            let h = crate::text::sub_bytes(v.as_slice(), 0, v.len());
            assert(h@ =~= v@);
            h
        },
        None => Vec::new(),
    };
    assert(mapb@ == rule_bytes(rv.rules, "mapname"@));
    let r = Server {
        address: raw.address.to_text(),
        realname: format_name(host.as_slice()),
        map: format_name(mapb.as_slice()),
        geo,
        version: parsed.version,
        gamedir: rule_str(&raw.rules, "modname"),
        mode,
        modefull,
        mode2: parsed.mode2,
        impure: parsed.impure,
        slots: parsed.slots,
        numplayers,
        maxplayers,
        numbots,
        numspectators,
        enc,
        d0id,
        fballowed: parsed.fballowed,
        teamplay: parsed.teamplay,
        stats: parsed.stats,
        scoreinfo: parsed.scoreinfo,
        players,
    };
    Some(r)
}

} // verus!
