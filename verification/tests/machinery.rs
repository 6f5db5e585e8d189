use xonlist::activity::{activity_sample, recordable_servers, upsert_sql, ActivityRow};
use xonlist::config::{log_level, ArgsEnd, Config, Endpoint, LogLevel};
use xonlist::geo::{lookup, Geo};
use xonlist::heatmap::{
    canvas_size, cell_origin, hour_label, hour_origin, max_value, name_origin, paint_cell, rank_rows,
    row_label, Canvas, HeatmapError,
};
use xonlist::model::{Info, ScoreInfo, Server, Snapshot};
use xonlist::protocol::{
    parse_infostring, parse_quoted, parse_status_response, take_token, trim, PeerAddr, Rules,
};
use xonlist::qcstatus::{parse_qcstatus, qc_readable_check};
use xonlist::query::{
    accept_status, another_round, split_families, split_hostport, v4_first, AddrSet, MasterReply,
};
use xonlist::refresh::{
    bans_fallback, build_servers, cache_age, cache_fresh, countries, first_wait, next_delay,
    refresh_snapshot, startup_heatmap_step, HeatmapStep,
};
use xonlist::server::{build_server_ok, rule_str};

fn centi(tok: Vec<u8>) -> Option<i32> {
    let f: f32 = std::str::from_utf8(&tok).ok()?.parse().ok()?;
    Some((f * 100.0) as i32)
}

fn addr(ip: &[u8], port: u16) -> PeerAddr {
    PeerAddr { ip: ip.to_vec(), port }
}

const STATUS: &[u8] = b"\xff\xff\xff\xffstatusResponse\n\\hostname\\^1Test\\mapname\\dance\\clients\\1\\bots\\0\\sv_maxclients\\16\\gameversion\\22\\qcstatus\\dm:git:P0:S15:F0:MXonotic::score!!\n10 40 0 \"^2foo\"\n";

fn row(name: &str, per_hour: i64) -> ActivityRow {
    ActivityRow { server: format!("{name}:1"), name: name.to_string(), hours: [per_hour; 24] }
}

fn srv(addr: &str, np: i32, nb: i32) -> Server {
    Server {
        address: addr.to_string(),
        realname: format!("name of {addr}"),
        map: String::new(),
        geo: "??".to_string(),
        version: String::new(),
        gamedir: String::new(),
        mode: "DM".to_string(),
        modefull: String::new(),
        mode2: String::new(),
        impure: 0,
        slots: 0,
        numplayers: np,
        maxplayers: 8,
        numbots: nb,
        numspectators: 0,
        enc: 0,
        d0id: String::new(),
        fballowed: 0,
        teamplay: 0,
        stats: 0,
        scoreinfo: ScoreInfo::empty(),
        players: vec![],
    }
}

#[test]
fn hostport_split_at_last_colon() {
    assert_eq!(split_hostport("dpm.dpmaster.org:27777"), ("dpm.dpmaster.org".to_string(), 27777));
    assert_eq!(split_hostport("dpmaster.tchr.no"), ("dpmaster.tchr.no".to_string(), 27950));
    assert_eq!(split_hostport("host:"), ("host".to_string(), 27950));
    assert_eq!(split_hostport("host:99999"), ("host".to_string(), 27950));
    assert_eq!(split_hostport("a:b"), ("a:b".to_string(), 27950));
    assert_eq!(split_hostport("[::1]:26000"), ("[::1]".to_string(), 26000));
}

#[test]
fn ipv4_before_ipv6() {
    let v6 = [0u8, 0, 0, 0, 0, 0, 0, 0, 0, 0, 0, 0, 0, 0, 0, 1];
    let list = vec![addr(&v6, 1), addr(&[1, 1, 1, 1], 2), addr(&v6, 3), addr(&[2, 2, 2, 2], 4)];
    let ports: Vec<u16> = v4_first(&list).iter().map(|a| a.port).collect();
    assert_eq!(ports, vec![2, 4, 1, 3]);
    let (a, b) = split_families(&list);
    assert_eq!(a.len(), 2);
    assert_eq!(b.len(), 2);
    assert!(a.iter().all(|x| x.is_ipv4()));
    assert!(b.iter().all(|x| !x.is_ipv4()));
}

#[test]
fn address_set_holds_each_once() {
    let mut s = AddrSet::new();
    assert!(s.is_empty());
    s.insert(addr(&[1, 2, 3, 4], 5));
    s.insert(addr(&[1, 2, 3, 4], 5));
    s.extend(vec![addr(&[1, 2, 3, 4], 6), addr(&[1, 2, 3, 4], 5)]);
    assert_eq!(s.len(), 2);
    assert!(s.contains(&addr(&[1, 2, 3, 4], 6)));
    s.remove(&addr(&[1, 2, 3, 4], 5));
    assert!(!s.contains(&addr(&[1, 2, 3, 4], 5)));
    assert_eq!(s.to_vec().len(), 1);
}

#[test]
fn status_taken_once_from_pending() {
    let src = addr(&[1, 2, 3, 4], 26000);
    let mut pending = AddrSet::new();
    pending.insert(src.duplicate());
    let mut out = Vec::new();
    accept_status(b"\xff\xff\xff\xffsomethingElse\n", &src, &mut pending, &mut out, &centi);
    assert!(out.is_empty());
    assert!(pending.contains(&src));
    accept_status(STATUS, &src, &mut pending, &mut out, &centi);
    assert_eq!(out.len(), 1);
    assert!(pending.is_empty());
    accept_status(STATUS, &src, &mut pending, &mut out, &centi);
    assert_eq!(out.len(), 1);
    let stranger = addr(&[9, 9, 9, 9], 1);
    accept_status(STATUS, &stranger, &mut pending, &mut out, &centi);
    assert_eq!(out.len(), 1);
}

#[test]
fn master_reply_collects_until_end() {
    let mut r = MasterReply::new();
    let mut p1 = b"\xff\xff\xff\xffgetserversResponse\\".to_vec();
    p1.extend_from_slice(&[1, 2, 3, 4, 0x65, 0x90]);
    assert!(!r.on_packet(&p1));
    let mut p2 = b"\xff\xff\xff\xffgetserversResponse\\".to_vec();
    p2.extend_from_slice(&[5, 6, 7, 8, 0x00, 0x50]);
    p2.extend_from_slice(b"\\EOT\0\0\0");
    assert!(r.on_packet(&p2));
    let got = r.finish().unwrap();
    assert_eq!(got.len(), 2);
    assert_eq!(got[1].to_text(), "5.6.7.8:80");
    assert!(MasterReply::new().finish().is_none());
}

#[test]
fn master_drops_unusable_entries() {
    let mut p = b"\xff\xff\xff\xffgetserversResponse\\".to_vec();
    p.extend_from_slice(&[0, 0, 0, 0, 0x65, 0x90]);
    p.push(b'\\');
    p.extend_from_slice(&[255, 255, 255, 255, 0x65, 0x90]);
    p.push(b'\\');
    p.extend_from_slice(&[1, 2, 3, 4, 0, 0]);
    p.push(b'/');
    p.extend_from_slice(&[0x20, 0x01, 0x0d, 0xb8, 0, 0, 0, 0, 0, 0, 0, 0, 0, 0, 0, 1, 0x65, 0x90]);
    let (addrs, eot) = xonlist::protocol::parse_getservers_response(&p);
    assert!(!eot);
    assert_eq!(addrs.len(), 1);
    assert_eq!(addrs[0].to_text(), "[2001:db8::1]:26000");
}

#[test]
fn status_packets_only() {
    assert!(parse_status_response(addr(&[1, 1, 1, 1], 1), b"hello\n", &centi).is_none());
    assert!(parse_status_response(addr(&[1, 1, 1, 1], 1), b"statusResponse", &centi).is_none());
    let st = parse_status_response(addr(&[1, 1, 1, 1], 1), b"statusResponse\n\\a\\1\\a\\2", &centi).unwrap();
    assert_eq!(st.rules.get("a").unwrap(), b"2");
    assert!(st.players.is_empty());
}

#[test]
fn infostring_and_tokens() {
    let r = parse_infostring(b"\\k\\v\\x\\");
    assert_eq!(r.get("k").unwrap(), b"v");
    assert_eq!(r.get("x").unwrap(), b"");
    assert!(r.get("nope").is_none());
    assert_eq!(trim(b"  a b \t"), b"a b");
    let (tok, rest) = take_token(b"12 rest").unwrap();
    assert_eq!(tok, b"12");
    assert_eq!(rest, b" rest");
    assert!(take_token(b" x").is_none());
    assert_eq!(parse_quoted(b"\"name\" tail").unwrap(), b"name");
    assert_eq!(parse_quoted(b"noquote").unwrap(), b"noquote");
    assert_eq!(parse_quoted(b"  ").unwrap(), b"");
}

#[test]
fn rule_text_is_lossy_utf8() {
    let mut rules = Rules::new();
    rules.insert("hostname".chars().collect(), vec![b'a', 0xff, b'b']);
    assert_eq!(rule_str(&rules, "hostname"), "a\u{fffd}b");
    assert_eq!(rule_str(&rules, "missing"), "");
}

#[test]
fn team_field_cut_from_qcstatus() {
    let q = parse_qcstatus("dm:git:P0:S0:F1:TTeamName:MXonotic::score!!", 0);
    assert_eq!(q.mode, "DM");
    assert_eq!(q.mode2, "VANILLA");
    assert!(qc_readable_check("dm:git:P0:S0:F0:MXonotic::"));
    assert!(!qc_readable_check("dm:git:P0:S0:F0:ÉX::"));
}

#[test]
fn refresh_builds_snapshot_from_replies() {
    let st = parse_status_response(addr(&[1, 2, 3, 4], 26000), STATUS, &centi).unwrap();
    assert!(build_server_ok(&st, &[]));
    let geos = countries(std::slice::from_ref(&st), None);
    assert_eq!(geos, vec!["??".to_string()]);
    let snap = refresh_snapshot(vec![st], &["DE".to_string()], &[], 77).unwrap();
    assert_eq!(snap.server.len(), 1);
    assert_eq!(snap.server[0].address, "1.2.3.4:26000");
    assert_eq!(snap.server[0].realname, "Test");
    assert_eq!(snap.server[0].geo, "DE");
    assert_eq!(snap.server[0].map, "dance");
    assert_eq!(snap.server[0].numplayers, 1);
    assert_eq!(snap.info.lastupdate_epoch, 77);

    let st = parse_status_response(addr(&[1, 2, 3, 4], 26000), STATUS, &centi).unwrap();
    let banned = refresh_snapshot(vec![st], &["DE".to_string()], &["1.2.3.4".to_string()], 77).unwrap();
    assert!(banned.server.is_empty());
    assert_eq!(banned.info.totalservers, 0);
}

#[test]
fn unreadable_replies_are_skipped() {
    let st = xonlist::protocol::RawStatus {
        address: addr(&[1, 2, 3, 4, 5], 1),
        rules: Rules::new(),
        players: vec![],
    };
    assert!(!build_server_ok(&st, &[]));
    assert!(build_servers(vec![st], &["??".to_string()], &[]).is_empty());
}

#[test]
fn cache_timing() {
    assert!(cache_fresh(Some(100), 150, 60));
    assert!(!cache_fresh(Some(100), 160, 60));
    assert!(!cache_fresh(None, 160, 60));
    assert!(cache_fresh(Some(200), 100, 60));
    assert_eq!(cache_age(Some(100), 150), Some(50));
    assert_eq!(cache_age(None, 150), None);
    assert_eq!(next_delay(Some(50), 300), 250);
    assert_eq!(next_delay(Some(300), 300), 0);
    assert_eq!(next_delay(None, 300), 0);
    assert_eq!(first_wait(None, 300), 300);
    assert_eq!(first_wait(Some(100), 300), 200);
    assert_eq!(first_wait(Some(400), 300), 300);
}

#[test]
fn startup_steps_and_ban_fallback() {
    assert_eq!(startup_heatmap_step(3, true), HeatmapStep::RecordAndRender);
    assert_eq!(startup_heatmap_step(0, false), HeatmapStep::RenderOnly);
    assert_eq!(startup_heatmap_step(0, true), HeatmapStep::Keep);
    assert_eq!(bans_fallback(Some("B 1.2.3.4:\n")), vec!["1.2.3.4".to_string()]);
    assert!(bans_fallback(None).is_empty());
}

#[test]
fn config_defaults_as_documented() {
    let c = Config::defaults();
    assert_eq!(c.server_ttl, 300);
    assert_eq!(c.bans_ttl, 86400);
    assert_eq!(c.activity_interval, 1800);
    assert_eq!(c.retries, 5);
    assert_eq!(c.query_timeout_ms, 800);
    assert_eq!(c.listen, "127.0.0.1:8080");
    assert_eq!(c.geodb, "/usr/local/share/GeoIP2_k/GeoLite2-City.mmdb");
    assert_eq!(
        c.masters,
        vec![
            "master1.xonotic.org:42863".to_string(),
            "dpmaster.deathmask.net".to_string(),
            "dpmaster.tchr.no".to_string(),
            "dpm.dpmaster.org:27777".to_string(),
        ]
    );
    assert_eq!(c.socket, None);
}

#[test]
fn config_errors() {
    let mut c = Config::defaults();
    assert_eq!(c.set("server-ttl", "soon"), Err("expected seconds, got soon".to_string()));
    assert_eq!(c.set("retries", "-1"), Err("retries: expected an integer, got -1".to_string()));
    assert_eq!(
        c.set("query-timeout-ms", "x"),
        Err("query-timeout-ms: expected an integer, got x".to_string())
    );
    assert_eq!(c.set("colour", "red"), Err("unknown option --colour".to_string()));
    assert_eq!(c.set("listen", "localhost"), Err("listen: expected host:port, got localhost".to_string()));
    assert_eq!(c.listen, "127.0.0.1:8080");
    assert_eq!(c.set("listen", "[::1]:80"), Ok(()));
    assert_eq!(c.listen, "[::1]:80");
    assert_eq!(c.set("socket", ""), Ok(()));
    assert_eq!(c.socket, None);
}

#[test]
fn command_line_arguments() {
    let args = |v: &[&str]| v.iter().map(|s| s.to_string()).collect::<Vec<String>>();
    let mut c = Config::defaults();
    assert_eq!(c.apply_args(&args(&["--retries=3", "--bans-ttl", "60"])), Ok(ArgsEnd::Done));
    assert_eq!(c.retries, 3);
    assert_eq!(c.bans_ttl, 60);
    assert_eq!(c.apply_args(&args(&["--title", "T", "-h", "--nonsense"])), Ok(ArgsEnd::Help));
    assert_eq!(c.title, "T");
    assert_eq!(c.apply_args(&args(&["serve"])), Err("unknown argument serve".to_string()));
    assert_eq!(c.apply_args(&args(&["--retries"])), Err("missing value for --retries".to_string()));
    assert_eq!(c.apply_args(&args(&["--nope=1"])), Err("unknown option --nope".to_string()));
}

#[test]
fn command_line_wins_over_environment() {
    let mut c = Config::defaults();
    let vars = vec![
        ("XONLIST_RETRIES".to_string(), "7".to_string()),
        ("PATH".to_string(), "/bin".to_string()),
        ("XONLIST_DOMAIN".to_string(), "example.org".to_string()),
    ];
    assert_eq!(c.apply_env(&vars), Ok(()));
    assert_eq!(c.retries, 7);
    assert_eq!(c.domain, "example.org");
    assert_eq!(c.apply_args(&["--retries".to_string(), "9".to_string()]), Ok(ArgsEnd::Done));
    assert_eq!(c.retries, 9);
    let bad = vec![("XONLIST_SERVER_TTL".to_string(), "later".to_string())];
    assert_eq!(c.apply_env(&bad), Err("expected seconds, got later".to_string()));
}

#[test]
fn socket_wins_over_listen() {
    let mut c = Config::defaults();
    assert_eq!(c.endpoint(), Endpoint::Tcp("127.0.0.1:8080".to_string()));
    c.set("socket", "/run/x.sock").unwrap();
    assert_eq!(c.endpoint(), Endpoint::Socket("/run/x.sock".to_string()));
}

#[test]
fn log_levels() {
    assert_eq!(log_level(Some("debug")), LogLevel::Debug);
    assert_eq!(log_level(Some("xonlist=trace")), LogLevel::Trace);
    assert_eq!(log_level(Some("error")), LogLevel::Error);
    assert_eq!(log_level(Some("xonlist=warn")), LogLevel::Warn);
    assert_eq!(log_level(Some("verbose")), LogLevel::Info);
    assert_eq!(log_level(None), LogLevel::Info);
}

#[test]
fn data_files() {
    let mut c = Config::defaults();
    assert_eq!(c.snapshot_path(), "data/snapshot.json");
    c.data_dir = "/var/lib/x/".to_string();
    assert_eq!(c.bans_path(), "/var/lib/x/checkupdate.txt");
    c.data_dir = String::new();
    assert_eq!(c.activity_path(), "activity.db");
    assert_eq!(c.heatmap_path(), "heatmap.png");
}

#[test]
fn asset_base_by_domain() {
    let mut c = Config::defaults();
    assert_eq!(c.asset_base(), "https://xonotic.lifeisabug.com");
    c.domain = "localhost:8080".to_string();
    assert_eq!(c.asset_base(), "http://localhost:8080");
    c.domain = "127.0.0.1:8080".to_string();
    assert_eq!(c.asset_base(), "http://127.0.0.1:8080");
    c.domain = "[::1]:8080".to_string();
    assert_eq!(c.asset_base(), "https://[::1]:8080");
    let site = xonlist::view::SiteCtx::for_server_page(&c, false);
    assert!(site.noindex);
    assert!(!xonlist::view::SiteCtx::from_config(&c, true).noindex);
}

#[test]
fn geo_without_database() {
    assert!(Geo::from_bytes(vec![1, 2, 3]).is_none());
    assert_eq!(lookup(None, &addr(&[1, 2, 3, 4], 1)), "??");
}

#[test]
fn activity_rows_and_statement() {
    assert_eq!(row("a", 2).total(), 48);
    assert_eq!(
        upsert_sql(5),
        "INSERT INTO activity (server, name, \"5\") VALUES (?1, ?2, 1)\n               ON CONFLICT(server) DO UPDATE SET \"5\" = \"5\" + 1, name = excluded.name"
    );
    let snap = Snapshot {
        info: Info { activeservers: 0, totalservers: 3, totalplayers: 0, totalbots: 0, lastupdate_epoch: 0, lastupdate: 0 },
        server: vec![srv("1.1.1.1:1", 0, 0), srv("2.2.2.2:1", 0, 2), srv("3.3.3.3:1", 4, 0)],
    };
    let rec = recordable_servers(&snap);
    assert_eq!(
        rec,
        vec![
            ("2.2.2.2:1".to_string(), "name of 2.2.2.2:1".to_string()),
            ("3.3.3.3:1".to_string(), "name of 3.3.3.3:1".to_string()),
        ]
    );
    let (sql, pairs) = activity_sample(&snap);
    assert_eq!(pairs, rec);
    assert!((0..24).any(|h| upsert_sql(h) == sql));
}

#[test]
fn heatmap_ranking() {
    let mut rows = Vec::new();
    for i in 0..55 {
        rows.push(row(&format!("s{:02}", i), (i % 5) as i64));
    }
    let ranked = rank_rows(rows);
    assert_eq!(ranked.len(), 50);
    assert_eq!(ranked[0].name, "s04");
    assert_eq!(ranked[1].name, "s09");
    assert!(ranked.windows(2).all(|w| w[0].total() >= w[1].total()));
    assert_eq!(max_value(&ranked), 4);
    assert_eq!(max_value(&[]), 0);
    assert_eq!(max_value(&[row("neg", -3)]), 0);
}

#[test]
fn canvas_rectangles() {
    let mut c = Canvas::new(4, 3);
    assert_eq!(c.bytes().len(), 36);
    c.fill_rect(1, 1, 10, 10, [1, 2, 3]);
    assert_eq!(c.pixel(0, 0), [255, 255, 255]);
    assert_eq!(c.pixel(0, 1), [255, 255, 255]);
    assert_eq!(c.pixel(3, 2), [1, 2, 3]);
    let mut s = Canvas::new(5, 5);
    s.stroke_rect(0, 0, 5, 5, [0, 0, 0]);
    assert_eq!(s.pixel(0, 0), [0, 0, 0]);
    assert_eq!(s.pixel(4, 2), [0, 0, 0]);
    assert_eq!(s.pixel(2, 4), [0, 0, 0]);
    assert_eq!(s.pixel(2, 2), [255, 255, 255]);
    s.set_pixel(-1, 2, [9, 9, 9]);
    s.set_pixel(7, 2, [9, 9, 9]);
    s.set_pixel(2, 2, [9, 9, 9]);
    assert_eq!(s.pixel(2, 2), [9, 9, 9]);
    assert_eq!(s.pixel(1, 2), [255, 255, 255]);
}

#[test]
fn canvas_png() {
    let png = Canvas::new(2, 2).encode_png().unwrap();
    assert_eq!(&png[..8], &[137, 80, 78, 71, 13, 10, 26, 10]);
    assert_eq!(Canvas::new(0, 5).encode_png(), Err(HeatmapError::EmptyImage));
}

#[test]
fn heatmap_layout() {
    assert_eq!(canvas_size(2), (1800, 110));
    assert_eq!(cell_origin(1, 2), (150, 55));
    assert_eq!(name_origin(0), (1260, 33));
    assert_eq!(hour_origin(3, 110), (205, 91));
    assert_eq!(row_label(0, "srv"), "#1: srv");
    assert_eq!(hour_label(7), "07:00");
    assert_eq!(hour_label(30), "30:00");
    assert_eq!(
        hour_label(23),
        "23:00                              All times are UTC / press F5 to refresh"
    );
    let (w, h) = canvas_size(1);
    let mut c = Canvas::new(w, h);
    paint_cell(&mut c, 0, 0, [10, 20, 30]);
    assert_eq!(c.pixel(50, 25), [200, 200, 200]);
    assert_eq!(c.pixel(99, 54), [200, 200, 200]);
    assert_eq!(c.pixel(60, 35), [10, 20, 30]);
    assert_eq!(c.pixel(100, 35), [255, 255, 255]);
}


#[test]
fn team_values_keep_team_order() {
    let mut v: Vec<(i32, i32)> = Vec::new();
    xonlist::model::score_put(&mut v, 3, 1);
    xonlist::model::score_put(&mut v, 1, 2);
    xonlist::model::score_put(&mut v, 3, 5);
    assert_eq!(v, vec![(1, 2), (3, 5)]);
}

#[test]
fn replies_left_out_of_the_list() {
    let too_new = b"\xff\xff\xff\xffstatusResponse\n\\hostname\\X\\gameversion\\70000\\qcstatus\\dm:git:P0:S1:F0:MXonotic::\n";
    let nameless = b"\xff\xff\xff\xffstatusResponse\n\\hostname\\\\gameversion\\1\\qcstatus\\dm:git:P0:S1:F0:MXonotic::\n";
    let fine = b"\xff\xff\xff\xffstatusResponse\n\\hostname\\X\\gameversion\\1\\qcstatus\\dm:git:P0:S1:F0:MXonotic::\n";
    let raws: Vec<_> = [&too_new[..], &nameless[..], &fine[..]]
        .iter()
        .enumerate()
        .map(|(i, p)| parse_status_response(addr(&[10, 0, 0, i as u8], 26000), p, &centi).unwrap())
        .collect();
    let geos = vec!["??".to_string(); 3];
    let built = build_servers(raws, &geos, &[]);
    assert_eq!(built.len(), 1);
    assert_eq!(built[0].address, "10.0.0.2:26000");
}

const UNREADABLE: &[u8] = b"\xff\xff\xff\xffstatusResponse\n\\hostname\\^1Test\\mapname\\dance\\clients\\1\\bots\\0\\sv_maxclients\\16\\gameversion\\22\\qcstatus\\dm:git:P0:S15:F0:\xc3\x89X::score!!\n10 40 0 \"^2foo\"\n";

const UNREADABLE_NEW: &[u8] = b"\xff\xff\xff\xffstatusResponse\n\\hostname\\^1Test\\mapname\\dance\\clients\\1\\bots\\0\\sv_maxclients\\16\\gameversion\\70000\\qcstatus\\dm:git:P0:S15:F0:\xc3\x89X::score!!\n10 40 0 \"^2foo\"\n";

const UNREADABLE_NAMELESS: &[u8] = b"\xff\xff\xff\xffstatusResponse\n\\hostname\\\\mapname\\dance\\clients\\1\\bots\\0\\sv_maxclients\\16\\gameversion\\22\\qcstatus\\dm:git:P0:S15:F0:\xc3\x89X::score!!\n10 40 0 \"^2foo\"\n";

#[test]
fn left_out_replies_need_no_readable_qcstatus() {
    let st = parse_status_response(addr(&[1, 2, 3, 4], 26000), UNREADABLE, &centi).unwrap();
    assert!(!build_server_ok(&st, &[]));
    assert!(build_server_ok(&st, &["1.2.3.4".to_string()]));
    assert!(build_servers(vec![st], &["??".to_string()], &["1.2.3.4".to_string()]).is_empty());

    let st = parse_status_response(addr(&[1, 2, 3, 4], 26000), UNREADABLE_NEW, &centi).unwrap();
    assert!(build_server_ok(&st, &[]));
    assert!(build_servers(vec![st], &["??".to_string()], &[]).is_empty());

    let st = parse_status_response(addr(&[1, 2, 3, 4], 26000), UNREADABLE_NAMELESS, &centi).unwrap();
    assert!(build_server_ok(&st, &[]));
    assert!(build_servers(vec![st], &["??".to_string()], &[]).is_empty());
}

#[test]
fn settings_from_environment_then_command_line() {
    let vars = vec![
        ("XONLIST_RETRIES".to_string(), "7".to_string()),
        ("XONLIST_DOMAIN".to_string(), "example.org".to_string()),
    ];
    let args = vec!["--retries".to_string(), "9".to_string()];
    match Config::from_sources(&vars, &args) {
        Ok((c, end)) => {
            assert_eq!(end, ArgsEnd::Done);
            assert_eq!(c.retries, 9);
            assert_eq!(c.domain, "example.org");
        }
        Err(e) => panic!("unexpected error {e}"),
    }
    match Config::from_sources(&vars, &["-h".to_string()]) {
        Ok((c, end)) => {
            assert_eq!(end, ArgsEnd::Help);
            assert_eq!(c.retries, 7);
        }
        Err(e) => panic!("unexpected error {e}"),
    }
    let bad = vec![("XONLIST_SERVER_TTL".to_string(), "later".to_string())];
    assert!(matches!(
        Config::from_sources(&bad, &args),
        Err(e) if e == "expected seconds, got later"
    ));
    assert!(matches!(
        Config::from_sources(&vars, &["serve".to_string()]),
        Err(e) if e == "unknown argument serve"
    ));
}

#[test]
fn query_rounds_follow_retries() {
    assert!(another_round(0, 0, 3));
    assert!(!another_round(1, 0, 3));
    assert!(another_round(2, 3, 1));
    assert!(!another_round(3, 3, 1));
    assert!(!another_round(0, 3, 0));
}

const TIED: &[u8] = b"\xff\xff\xff\xffstatusResponse\n\\hostname\\Tied\\mapname\\dance\\clients\\3\\bots\\0\\sv_maxclients\\16\\gameversion\\22\\qcstatus\\dm:git:P0:S13:F0:MXonotic::score!!\n10 40 0 \"zed\"\n10 40 0 \"abe\"\n30 40 0 \"top\"\n";

#[test]
fn tied_players_keep_reply_order() {
    let st = parse_status_response(addr(&[1, 2, 3, 4], 26000), TIED, &centi).unwrap();
    let snap = refresh_snapshot(vec![st], &["DE".to_string()], &[], 77).unwrap();
    let names: Vec<&str> = snap.server[0].players.iter().map(|p| p.name.as_str()).collect();
    assert_eq!(names.len(), 3);
    assert!(names[0].contains("top"));
    assert!(names[1].contains("zed"));
    assert!(names[2].contains("abe"));
}
