//! What the pages show of a server: display-ready values computed from a
//! server entry.

use vstd::prelude::*;

use crate::bindings::{lower_text, to_lower};
use crate::model::{
    encryption_label, is_text, mode_tag, opt_text_view, ping_kind,
    player_score_display, refs_model, score_display_defined, servers_model,
    sorted_servers, spec_encryption_label, spec_mode_tag, spec_score_display, spec_team_class,
    spec_trunc_with_title, spec_ucfirst, team_class, trunc_with_title, ucfirst, PingKind,
    PlayerModel, ScoreFlags, Server, ServerModel, Snapshot,
};
use crate::sorting::sort_stable;
use crate::text::{append_str, chars_of, int_chars, int_text, string_of};

verus! {

/// Site-wide values for the templates.
#[derive(Clone, Debug)]
pub struct SiteCtx {
    pub domain: String,
    pub title: String,
    pub desc: String,
    pub asset_base: String,
    pub rjz: bool,
    /// The page asks search engines not to index it.
    pub noindex: bool,
}

/// A team's score as shown above the player table.
#[derive(Clone, Debug)]
pub struct TeamScoreView {
    pub class: String,
    pub label: String,
    pub value: i32,
}

pub struct TeamScoreViewModel {
    pub class: Seq<char>,
    pub label: Seq<char>,
    pub value: i32,
}

impl View for TeamScoreView {
    type V = TeamScoreViewModel;

    open spec fn view(&self) -> TeamScoreViewModel {
        TeamScoreViewModel { class: self.class@, label: self.label@, value: self.value }
    }
}

/// A player row.
#[derive(Clone, Debug)]
pub struct PlayerView {
    pub team_class: Option<String>,
    pub name_display: String,
    pub name_title: Option<String>,
    pub ping_arrows: bool,
    pub ping_bot: bool,
    pub ping_num: Option<i32>,
    pub score_display: String,
    pub score_title: Option<String>,
}

pub struct PlayerViewModel {
    pub team_class: Option<Seq<char>>,
    pub name_display: Seq<char>,
    pub name_title: Option<Seq<char>>,
    pub ping_arrows: bool,
    pub ping_bot: bool,
    pub ping_num: Option<i32>,
    pub score_display: Seq<char>,
    pub score_title: Option<Seq<char>>,
}

impl View for PlayerView {
    type V = PlayerViewModel;

    open spec fn view(&self) -> PlayerViewModel {
        PlayerViewModel {
            team_class: opt_text_view(self.team_class),
            name_display: self.name_display@,
            name_title: opt_text_view(self.name_title),
            ping_arrows: self.ping_arrows,
            ping_bot: self.ping_bot,
            ping_num: self.ping_num,
            score_display: self.score_display@,
            score_title: opt_text_view(self.score_title),
        }
    }
}

/// A server as the pages show it.
#[derive(Clone, Debug)]
pub struct ServerView {
    pub address: String,
    pub geo: String,
    pub geo_lower: String,
    pub realname: String,
    pub mode: String,
    pub modefull: String,
    pub mode_tag: String,
    pub instagib_dot: bool,
    pub map_display: String,
    pub map_title: Option<String>,
    pub numplayers: i32,
    pub maxplayers: i32,
    pub empty: bool,
    pub version: String,
    pub gamedir: String,
    pub d0id: String,
    pub encryption: String,
    pub stats_supported: bool,
    pub fullbright_forbidden: bool,
    pub impure: i32,
    pub slots: i32,
    pub team_scores: Vec<TeamScoreView>,
    pub players: Vec<PlayerView>,
    pub has_player_table: bool,
    pub player_query_error: bool,
    pub score_header: String,
}

pub struct ServerViewModel {
    pub address: Seq<char>,
    pub geo: Seq<char>,
    pub geo_lower: Seq<char>,
    pub realname: Seq<char>,
    pub mode: Seq<char>,
    pub modefull: Seq<char>,
    pub mode_tag: Seq<char>,
    pub instagib_dot: bool,
    pub map_display: Seq<char>,
    pub map_title: Option<Seq<char>>,
    pub numplayers: i32,
    pub maxplayers: i32,
    pub empty: bool,
    pub version: Seq<char>,
    pub gamedir: Seq<char>,
    pub d0id: Seq<char>,
    pub encryption: Seq<char>,
    pub stats_supported: bool,
    pub fullbright_forbidden: bool,
    pub impure: i32,
    pub slots: i32,
    pub team_scores: Seq<TeamScoreViewModel>,
    pub players: Seq<PlayerViewModel>,
    pub has_player_table: bool,
    pub player_query_error: bool,
    pub score_header: Seq<char>,
}

pub open spec fn team_views_model(v: Seq<TeamScoreView>) -> Seq<TeamScoreViewModel> {
    v.map_values(|x: TeamScoreView| x@)
}

pub open spec fn player_views_model(v: Seq<PlayerView>) -> Seq<PlayerViewModel> {
    v.map_values(|x: PlayerView| x@)
}

impl View for ServerView {
    type V = ServerViewModel;

    open spec fn view(&self) -> ServerViewModel {
        ServerViewModel {
            address: self.address@,
            geo: self.geo@,
            geo_lower: self.geo_lower@,
            realname: self.realname@,
            mode: self.mode@,
            modefull: self.modefull@,
            mode_tag: self.mode_tag@,
            instagib_dot: self.instagib_dot,
            map_display: self.map_display@,
            map_title: opt_text_view(self.map_title),
            numplayers: self.numplayers,
            maxplayers: self.maxplayers,
            empty: self.empty,
            version: self.version@,
            gamedir: self.gamedir@,
            d0id: self.d0id@,
            encryption: self.encryption@,
            stats_supported: self.stats_supported,
            fullbright_forbidden: self.fullbright_forbidden,
            impure: self.impure,
            slots: self.slots,
            team_scores: team_views_model(self.team_scores@),
            players: player_views_model(self.players@),
            has_player_table: self.has_player_table,
            player_query_error: self.player_query_error,
            score_header: self.score_header@,
        }
    }
}

/// The team score rows of a column: one per team that has a colour, in
/// team order, labelled `Team <n> <Label>`.
pub open spec fn team_rows(pairs: Seq<(i32, i32)>, label: Seq<char>) -> Seq<TeamScoreViewModel>
    decreases pairs.len(),
{
    if pairs.len() == 0 {
        seq![]
    } else {
        let (k, v) = pairs.last();
        team_rows(pairs.drop_last(), label) + match spec_team_class(k) {
            Some(c) => seq![
                TeamScoreViewModel {
                    class: c,
                    label: "Team "@ + int_text(k as int) + " "@ + spec_ucfirst(label),
                    value: v,
                },
            ],
            None => seq![],
        }
    }
}

/// The team score rows of a server: for team games, the preferred column's
/// teams, when the column has a label or values.
pub open spec fn spec_team_scores(s: ServerModel) -> Seq<TeamScoreViewModel> {
    if s.teamplay != 0 {
        let prefer = if s.scoreinfo.team.prefer == "sec"@ {
            s.scoreinfo.team.sec
        } else {
            s.scoreinfo.team.pri
        };
        if prefer.label.len() != 0 || prefer.score.len() != 0 {
            team_rows(prefer.score, prefer.label)
        } else {
            seq![]
        }
    } else {
        seq![]
    }
}

/// A player row of a server.
pub open spec fn spec_player_view(s: ServerModel, p: PlayerModel) -> PlayerViewModel {
    let (nd, nt) = spec_trunc_with_title(p.name, 42);
    let (sd, st) = spec_score_display(s, p);
    PlayerViewModel {
        team_class: if s.teamplay != 0 { spec_team_class(p.team) } else { None },
        name_display: nd,
        name_title: nt,
        ping_arrows: p.ping == 1,
        ping_bot: p.ping == 0,
        ping_num: if p.ping != 1 && p.ping != 0 { Some(p.ping) } else { None },
        score_display: sd,
        score_title: st,
    }
}

/// The score column's header: `Deaths` for Quake cooperative games, else
/// the player column's label, else `Score`.
pub open spec fn spec_score_header(s: ServerModel) -> Seq<char> {
    if s.mode == "COOP"@ && s.mode2 == "QUAKE"@ {
        "Deaths"@
    } else if s.scoreinfo.player.label.len() != 0 {
        spec_ucfirst(s.scoreinfo.player.label)
    } else {
        "Score"@
    }
}

/// How the pages show a server.
pub open spec fn spec_server_view(s: ServerModel) -> ServerViewModel {
    let (tag, dot) = spec_mode_tag(s);
    let (md, mt) = spec_trunc_with_title(s.map, 16);
    let players = s.players.map_values(|p: PlayerModel| spec_player_view(s, p));
    let has_table = s.numplayers > 0 || s.numbots > 0;
    ServerViewModel {
        address: s.address,
        geo: s.geo,
        geo_lower: lower_text(s.geo),
        realname: s.realname,
        mode: s.mode,
        modefull: s.modefull,
        mode_tag: tag,
        instagib_dot: dot,
        map_display: md,
        map_title: mt,
        numplayers: s.numplayers,
        maxplayers: s.maxplayers,
        empty: s.numplayers < 1,
        version: s.version,
        gamedir: s.gamedir,
        d0id: s.d0id,
        encryption: spec_encryption_label(s.enc),
        stats_supported: s.stats != 0,
        fullbright_forbidden: s.fballowed == 0,
        impure: s.impure,
        slots: s.slots,
        team_scores: spec_team_scores(s),
        players,
        has_player_table: has_table,
        player_query_error: has_table && players.len() == 0,
        score_header: spec_score_header(s),
    }
}

/// Every player's score can be shown (see `score_display_defined`).
pub open spec fn view_defined(s: ServerModel) -> bool {
    forall|i: int| 0 <= i < s.players.len() ==> score_display_defined(s, #[trigger] s.players[i])
}

fn team_score_rows(f: &ScoreFlags) -> (r: Vec<TeamScoreView>)
    ensures
        team_views_model(r@) == team_rows(f.score@, f.label@),
{
    let label = ucfirst(f.label.as_str());
    let lc = chars_of(label.as_str());
    let mut out: Vec<TeamScoreView> = Vec::new();
    let mut i: usize = 0;
    assert(f.score@.take(0) =~= Seq::<(i32, i32)>::empty());
    while i < f.score.len()
        invariant
            i <= f.score.len(),
            lc@ == spec_ucfirst(f.label@),
            team_views_model(out@) == team_rows(f.score@.take(i as int), f.label@),
        decreases f.score.len() - i,
    {
        let (k, v) = f.score[i];
        let ghost t = f.score@.take(i + 1);
        assert(t.drop_last() =~= f.score@.take(i as int));
        let ghost before = team_views_model(out@);
        match team_class(k) {
            Some(c) => {
                let mut text: Vec<char> = Vec::new();
                append_str(&mut text, "Team ");
                let kc = int_chars(k as i64);
                crate::text::append_chars(&mut text, &kc);
                append_str(&mut text, " ");
                crate::text::append_chars(&mut text, &lc);
                let row = TeamScoreView { class: c.to_owned(), label: string_of(&text), value: v };
                out.push(row);
                assert(team_views_model(out@) =~= before + seq![row@]);
            },
            None => {},
        }
        assert(team_views_model(out@) =~= team_rows(t, f.label@));
        i += 1;
    }
    assert(f.score@.take(f.score.len() as int) =~= f.score@);
    out
}

/// How the pages show a server.
pub fn server_view(s: &Server) -> (r: ServerView)
    requires
        view_defined(s@),
    ensures
        r@ == spec_server_view(s@),
{
    let ghost sm = s@;
    let (tag, dot) = mode_tag(s);
    let (map_display, map_title) = trunc_with_title(s.map.as_str(), 16);
    let mut team_scores: Vec<TeamScoreView> = Vec::new();
    if s.teamplay != 0 {
        let prefer: &ScoreFlags = if is_text(s.scoreinfo.team.prefer.as_str(), "sec") {
            &s.scoreinfo.team.sec
        } else {
            &s.scoreinfo.team.pri
        };
        if chars_of(prefer.label.as_str()).len() != 0 || prefer.score.len() != 0 {
            team_scores = team_score_rows(prefer);
        }
    }
    assert(team_views_model(team_scores@) == spec_team_scores(sm));
    let mut players: Vec<PlayerView> = Vec::new();
    let mut i: usize = 0;
    while i < s.players.len()
        invariant
            sm == s@,
            view_defined(sm),
            i <= s.players.len(),
            players@.len() == i,
            player_views_model(players@) == sm.players.map_values(
                |p: PlayerModel| spec_player_view(sm, p),
            ).take(i as int),
        decreases s.players.len() - i,
    {
        let p = &s.players[i];
        assert(sm.players[i as int] == p@);
        let (name_display, name_title) = trunc_with_title(p.name.as_str(), 42);
        let (score_display, score_title) = player_score_display(s, p);
        let (ping_arrows, ping_bot, ping_num) = match ping_kind(p) {
            PingKind::Arrows => (true, false, None),
            PingKind::Bot => (false, true, None),
            PingKind::Number(n) => (false, false, Some(n)),
        };
        let tc = if s.teamplay != 0 {
            match team_class(p.team) {
                Some(c) => Some(c.to_owned()),
                None => None,
            }
        } else {
            None
        };
        let pv = PlayerView {
            team_class: tc,
            name_display,
            name_title,
            ping_arrows,
            ping_bot,
            ping_num,
            score_display,
            score_title,
        };
        assert(pv@ == spec_player_view(sm, p@));
        let ghost pvm = pv@;
        players.push(pv);
        assert(players@[i as int]@ == pvm);
        i += 1;
        assert(player_views_model(players@) =~= sm.players.map_values(
            |p: PlayerModel| spec_player_view(sm, p),
        ).take(i as int));
    }
    assert(sm.players.map_values(|p: PlayerModel| spec_player_view(sm, p)).take(
        i as int,
    ) =~= sm.players.map_values(|p: PlayerModel| spec_player_view(sm, p)));
    let has_player_table = s.numplayers > 0 || s.numbots > 0;
    let player_query_error = has_player_table && players.len() == 0;
    let score_header = if is_text(s.mode.as_str(), "COOP") && is_text(s.mode2.as_str(), "QUAKE") {
        "Deaths".to_owned()
    } else if chars_of(s.scoreinfo.player.label.as_str()).len() != 0 {
        ucfirst(s.scoreinfo.player.label.as_str())
    } else {
        "Score".to_owned()
    };
    ServerView {
        address: s.address.clone(),
        geo: s.geo.clone(),
        geo_lower: to_lower(s.geo.as_str()),
        realname: s.realname.clone(),
        mode: s.mode.clone(),
        modefull: s.modefull.clone(),
        mode_tag: tag,
        instagib_dot: dot,
        map_display,
        map_title,
        numplayers: s.numplayers,
        maxplayers: s.maxplayers,
        empty: s.numplayers < 1,
        version: s.version.clone(),
        gamedir: s.gamedir.clone(),
        d0id: s.d0id.clone(),
        encryption: encryption_label(s.enc).to_owned(),
        stats_supported: s.stats != 0,
        fullbright_forbidden: s.fballowed == 0,
        impure: s.impure,
        slots: s.slots,
        team_scores,
        players,
        has_player_table,
        player_query_error,
        score_header,
    }
}

pub open spec fn server_views_model(v: Seq<ServerView>) -> Seq<ServerViewModel> {
    v.map_values(|x: ServerView| x@)
}

/// Every server of the snapshot can be shown.
pub open spec fn snapshot_viewable(s: Seq<ServerModel>) -> bool {
    forall|i: int| 0 <= i < s.len() ==> view_defined(#[trigger] s[i])
}

/// Whether a server can be shown (`view_defined`): no score to negate is
/// `i32::MIN`.
pub fn server_viewable(s: &Server) -> (r: bool)
    ensures
        r == view_defined(s@),
{
    let negates = is_text(s.mode.as_str(), "COOP") && is_text(s.mode2.as_str(), "QUAKE")
        && !crate::model::is_time_label(s.scoreinfo.player.label.as_str());
    let mut j: usize = 0;
    while j < s.players.len()
        invariant
            j <= s.players.len(),
            negates == (s@.mode == "COOP"@ && s@.mode2 == "QUAKE"@ && !crate::model::spec_is_time_label(
                s@.scoreinfo.player.label,
            )),
            forall|m: int| 0 <= m < j ==> score_display_defined(s@, #[trigger] s@.players[m]),
        decreases s.players.len() - j,
    {
        assert(s@.players[j as int] == s.players@[j as int]@);
        let p = &s.players[j];
        if negates && p.score == i32::MIN && !(p.ping == 1 && p.team == 0) {
            proof {
                reveal_strlit("COOP");
                reveal_strlit("LMS");
                assert(s@.mode == "COOP"@);
                assert("COOP"@.len() == 4);
                assert("LMS"@.len() == 3);
                assert(s@.mode != "LMS"@);
            }
            assert(!score_display_defined(s@, s@.players[j as int]));
            return false;
        }
        j += 1;
    }
    true
}

/// Whether every server of the snapshot can be shown (`snapshot_viewable`).
pub fn viewable(snap: &Snapshot) -> (r: bool)
    ensures
        r == snapshot_viewable(servers_model(snap.server@)),
{
    let ghost ss = servers_model(snap.server@);
    let mut k: usize = 0;
    while k < snap.server.len()
        invariant
            ss == servers_model(snap.server@),
            k <= snap.server.len(),
            forall|i: int| 0 <= i < k ==> view_defined(#[trigger] ss[i]),
        decreases snap.server.len() - k,
    {
        assert(ss[k as int] == snap.server@[k as int]@);
        if !server_viewable(&snap.server[k]) {
            return false;
        }
        k += 1;
    }
    true
}

/// The snapshot's servers as the pages show them, in list order.
pub fn views_from_snapshot(snap: &Snapshot) -> (r: Vec<ServerView>)
    requires
        snapshot_viewable(servers_model(snap.server@)),
    ensures
        server_views_model(r@) == sort_stable(
            servers_model(snap.server@),
            crate::model::server_order(),
        ).map_values(|s: ServerModel| spec_server_view(s)),
{
    let sorted = sorted_servers(snap);
    let ghost order = sort_stable(servers_model(snap.server@), crate::model::server_order());
    proof {
        crate::sorting::lemma_sort_members(servers_model(snap.server@), crate::model::server_order());
        assert forall|j: int| 0 <= j < order.len() implies view_defined(#[trigger] order[j]) by {
            let ss = servers_model(snap.server@);
            assert(ss.contains(order[j]));
            let k = choose|k: int| 0 <= k < ss.len() && ss[k] == order[j];
        }
    }
    let mut out: Vec<ServerView> = Vec::new();
    let mut i: usize = 0;
    while i < sorted.len()
        invariant
            i <= sorted.len(),
            out@.len() == i,
            refs_model(sorted@) == order,
            forall|j: int| 0 <= j < order.len() ==> view_defined(#[trigger] order[j]),
            server_views_model(out@) == order.map_values(|s: ServerModel| spec_server_view(s)).take(
                i as int,
            ),
        decreases sorted.len() - i,
    {
        assert(order[i as int] == sorted@[i as int]@);
        let v = server_view(sorted[i]);
        let ghost vm = v@;
        out.push(v);
        assert(out@[i as int]@ == vm);
        i += 1;
        assert(server_views_model(out@) =~= order.map_values(
            |s: ServerModel| spec_server_view(s),
        ).take(i as int));
    }
    assert(order.map_values(|s: ServerModel| spec_server_view(s)).take(i as int) =~= order.map_values(
        |s: ServerModel| spec_server_view(s),
    ));
    out
}

/// The front page's values.
pub struct IndexTemplate<'a> {
    pub site: &'a SiteCtx,
    pub totalplayers: i32,
    pub totalbots: i32,
    pub activeservers: i32,
    pub totalservers: i32,
    pub lastupdate: u64,
    pub servers: &'a [ServerView],
    pub embed: bool,
}

/// The values of a page embedding one server.
pub struct EmbedTemplate<'a> {
    pub site: &'a SiteCtx,
    pub servers: &'a [ServerView],
    pub has_server: bool,
    pub embed: bool,
}

/// The values of the server rows fragment.
pub struct RowsTemplate<'a> {
    pub site: &'a SiteCtx,
    pub servers: &'a [ServerView],
    pub embed: bool,
}

} // verus!
