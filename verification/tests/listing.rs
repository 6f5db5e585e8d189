use xonlist::model::{
    assemble_snapshot, encryption_label, map_team, sorted_servers, ucfirst, Info, Player, ScoreInfo,
    Server, Snapshot,
};
use xonlist::qfont::{format_name, ordinate, score2time};
use xonlist::state::PageCache;
use xonlist::view::{server_viewable, viewable, views_from_snapshot};
use xonlist::web::{
    asset_path, content_type, fill_age, server_page_ok, server_page_views, servers_page_ok, servers_page_views,
};

fn server(addr: &str, name: &str, np: i32, nb: i32) -> Server {
    Server {
        address: addr.to_string(),
        realname: name.to_string(),
        map: "dance".to_string(),
        geo: "DE".to_string(),
        version: "git".to_string(),
        gamedir: "data".to_string(),
        mode: "DM".to_string(),
        modefull: "Deathmatch".to_string(),
        mode2: "VANILLA".to_string(),
        impure: 0,
        slots: 16,
        numplayers: np,
        maxplayers: 16,
        numbots: nb,
        numspectators: 0,
        enc: 0,
        d0id: "0".to_string(),
        fballowed: 0,
        teamplay: 0,
        stats: 0,
        scoreinfo: ScoreInfo::empty(),
        players: vec![],
    }
}

fn snapshot(servers: Vec<Server>) -> Snapshot {
    Snapshot {
        info: Info {
            activeservers: 0,
            totalservers: servers.len() as i32,
            totalplayers: 0,
            totalbots: 0,
            lastupdate_epoch: 0,
            lastupdate: 0,
        },
        server: servers,
    }
}

#[test]
fn list_order_players_then_names() {
    let snap = snapshot(vec![
        server("1.1.1.1:1", "bravo", 2, 0),
        server("2.2.2.2:1", "alpha", 5, 0),
        server("3.3.3.3:1", "charlie", 2, 0),
    ]);
    let names: Vec<&str> = sorted_servers(&snap).iter().map(|s| s.realname.as_str()).collect();
    assert_eq!(names, vec!["alpha", "charlie", "bravo"]);
}

#[test]
fn list_order_keeps_ties_in_address_order() {
    let snap = snapshot(vec![
        server("1.1.1.1:1", "same", 1, 0),
        server("2.2.2.2:1", "same", 1, 0),
    ]);
    let addrs: Vec<&str> = sorted_servers(&snap).iter().map(|s| s.address.as_str()).collect();
    assert_eq!(addrs, vec!["1.1.1.1:1", "2.2.2.2:1"]);
}

#[test]
fn snapshot_last_reply_wins() {
    let snap = assemble_snapshot(
        vec![
            server("2.2.2.2:1", "x", 1, 0),
            server("1.1.1.1:1", "y", 0, 2),
            server("2.2.2.2:1", "z", 3, 1),
        ],
        100,
    );
    let addrs: Vec<&str> = snap.server.iter().map(|s| s.address.as_str()).collect();
    assert_eq!(addrs, vec!["1.1.1.1:1", "2.2.2.2:1"]);
    assert_eq!(snap.server[1].realname, "z");
    assert_eq!(snap.info.totalservers, 3);
    assert_eq!(snap.info.activeservers, 2);
    assert_eq!(snap.info.totalplayers, 4);
    assert_eq!(snap.info.totalbots, 3);
    assert_eq!(snap.info.lastupdate_epoch, 100);
    assert!(snap.info.activeservers <= snap.info.totalservers);
}

#[test]
fn snapshot_age() {
    let snap = assemble_snapshot(vec![server("1.1.1.1:1", "y", 0, 0)], 100);
    assert_eq!(snap.with_lastupdate_at(160).info.lastupdate, 60);
    assert_eq!(snap.with_lastupdate_at(50).info.lastupdate, 0);
}

#[test]
fn views_follow_list_order() {
    let snap = snapshot(vec![
        server("1.1.1.1:1", "quiet", 0, 0),
        server("2.2.2.2:1", "busy", 3, 0),
    ]);
    let views = views_from_snapshot(&snap);
    assert_eq!(views.len(), 2);
    assert_eq!(views[0].address, "2.2.2.2:1");
    assert_eq!(views[1].address, "1.1.1.1:1");
    assert_eq!(views[0].geo_lower, "de");
    assert!(views[1].empty);
}

#[test]
fn team_numbers_map_to_colours() {
    assert_eq!(map_team(5), 1);
    assert_eq!(map_team(14), 2);
    assert_eq!(map_team(13), 3);
    assert_eq!(map_team(10), 4);
    assert_eq!(map_team(0), 0);
    assert_eq!(map_team(map_team(14)), map_team(14));
}

#[test]
fn encryption_labels() {
    assert_eq!(encryption_label(0), "Not Supported");
    assert_eq!(encryption_label(1), "Supported");
    assert_eq!(encryption_label(2), "Requested");
    assert_eq!(encryption_label(3), "Required");
}

#[test]
fn first_letter_upper() {
    assert_eq!(ucfirst("score"), "Score");
    assert_eq!(ucfirst("élan"), "Élan");
    assert_eq!(ucfirst(""), "");
}

#[test]
fn names_without_colour_codes() {
    assert_eq!(format_name(b"^1Test"), "Test");
    assert_eq!(format_name(b"^x0F0Green^7!"), "Green!");
    assert_eq!(format_name(b"a^^b"), "a^b");
}

#[test]
fn race_times_and_ranks() {
    assert_eq!(score2time(12345), "2:03.45");
    assert_eq!(score2time(0), "-");
    assert_eq!(score2time(-5), "-");
    assert_eq!(ordinate(1), "1st");
    assert_eq!(ordinate(2), "2nd");
    assert_eq!(ordinate(3), "3rd");
    assert_eq!(ordinate(11), "11th");
    assert_eq!(ordinate(22), "22nd");
}

#[test]
fn content_types_by_extension() {
    assert_eq!(content_type("css/site.css"), "text/css; charset=utf-8");
    assert_eq!(content_type("js/a.min.js"), "text/javascript; charset=utf-8");
    assert_eq!(content_type("images/x.png"), "image/png");
    assert_eq!(content_type("fonts/f.woff2"), "font/woff2");
    assert_eq!(content_type("favicon.ico"), "image/x-icon");
    assert_eq!(content_type("README"), "application/octet-stream");
    assert_eq!(content_type("a.tar.gz"), "application/octet-stream");
}

#[test]
fn asset_paths() {
    assert_eq!(asset_path("/css/a.css"), Some("css/a.css".to_string()));
    assert_eq!(asset_path("//x"), Some("x".to_string()));
    assert_eq!(asset_path("/"), None);
    assert_eq!(asset_path(""), None);
}

#[test]
fn age_fills_first_token_only() {
    assert_eq!(
        fill_age("a @XONLIST_AGE@ b @XONLIST_AGE@", 42),
        "a 42 b @XONLIST_AGE@"
    );
    assert_eq!(fill_age("no token", 7), "no token");
    assert_eq!(fill_age("@XONLIST_AGE@", 0), "0");
}

#[test]
fn server_page_finds_address() {
    let snap = snapshot(vec![server("1.1.1.1:1", "one", 0, 0), server("2.2.2.2:1", "two", 0, 0)]);
    let v = server_page_views(&snap, "2.2.2.2:1");
    assert_eq!(v.len(), 1);
    assert_eq!(v[0].realname, "two");
    assert!(server_page_views(&snap, "9.9.9.9:1").is_empty());
}

#[test]
fn servers_page_selects_wanted() {
    let snap = snapshot(vec![
        server("1.1.1.1:1", "one", 0, 0),
        server("2.2.2.2:1", "two", 0, 0),
        server("3.3.3.3:1", "three", 0, 0),
    ]);
    let want = vec!["3.3.3.3:1".to_string(), "1.1.1.1:1".to_string(), "8.8.8.8:1".to_string()];
    let v = servers_page_views(&snap, &want);
    let addrs: Vec<&str> = v.iter().map(|s| s.address.as_str()).collect();
    assert_eq!(addrs, vec!["1.1.1.1:1", "3.3.3.3:1"]);
}

#[test]
fn page_cache_keeps_pages() {
    let mut c = PageCache::new();
    assert!(c.is_for(0));
    c.store(7, "plain".to_string(), "alt".to_string());
    assert!(c.is_for(7));
    assert!(!c.is_for(8));
    assert_eq!(c.page(false), "plain");
    assert_eq!(c.page(true), "alt");
}

#[test]
fn quake_scores_that_cannot_be_negated() {
    let mut coop = server("5.5.5.5:1", "coop", 1, 0);
    coop.mode = "COOP".to_string();
    coop.mode2 = "QUAKE".to_string();
    coop.players.push(Player { name: "p".to_string(), score: i32::MIN, ping: 20, team: 0, prio: 0 });
    assert!(!server_viewable(&coop));
    let snap = snapshot(vec![server("1.1.1.1:1", "one", 0, 0), coop]);
    assert!(!viewable(&snap));
    assert!(server_page_ok(&snap, "1.1.1.1:1"));
    assert!(!server_page_ok(&snap, "5.5.5.5:1"));
    assert!(servers_page_ok(&snap, &["1.1.1.1:1".to_string()]));
    assert!(!servers_page_ok(&snap, &["5.5.5.5:1".to_string()]));
}

#[test]
fn quake_scores_shown_negated() {
    let mut coop = server("5.5.5.5:1", "coop", 1, 0);
    coop.mode = "COOP".to_string();
    coop.mode2 = "QUAKE".to_string();
    coop.players.push(Player { name: "p".to_string(), score: -12, ping: 20, team: 0, prio: 0 });
    let (shown, title) = xonlist::model::player_score_display(&coop, &coop.players[0]);
    assert_eq!(shown, "12");
    assert_eq!(title, None);
}

#[test]
fn quake_spectator_with_lowest_score_is_shown() {
    let mut coop = server("5.5.5.5:1", "coop", 1, 0);
    coop.mode = "COOP".to_string();
    coop.mode2 = "QUAKE".to_string();
    coop.players.push(Player { name: "s".to_string(), score: i32::MIN, ping: 1, team: 0, prio: 0 });
    assert!(server_viewable(&coop));
    let (shown, title) = xonlist::model::player_score_display(&coop, &coop.players[0]);
    assert_eq!(shown, "spec");
    assert_eq!(title, Some("spectator".to_string()));
    let snap = snapshot(vec![coop]);
    assert!(viewable(&snap));
    assert!(server_page_ok(&snap, "5.5.5.5:1"));
}
