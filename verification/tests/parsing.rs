use xonlist::config::Config;
use xonlist::model::parse_banned;
use xonlist::protocol::{parse_getservers_response, parse_player_line, parse_status_response, PeerAddr};
use xonlist::qcstatus::parse_qcstatus;

/// Scores written with a decimal point, in hundredths (as the server list
/// reads them).
fn centi(tok: Vec<u8>) -> Option<i32> {
    let f: f32 = std::str::from_utf8(&tok).ok()?.parse().ok()?;
    Some((f * 100.0) as i32)
}

#[test]
fn masters_and_ttl() {
    let mut cfg = Config::defaults();
    cfg.set("masters", "a.example, b.example:27950").unwrap();
    cfg.set("server-ttl", "90").unwrap();
    cfg.set("retries", "2").unwrap();
    assert_eq!(
        cfg.masters,
        vec!["a.example".to_string(), "b.example:27950".to_string()]
    );
    assert_eq!(cfg.server_ttl, 90);
    assert_eq!(cfg.retries, 2);
}

#[test]
fn bans_parse() {
    let t = "B 1.2.3.4:\nX ignore\nB evil.host:\n";
    let b = parse_banned(t);
    assert!(b.contains(&"1.2.3.4".into()));
    assert!(b.contains(&"evil.host".into()));
}

#[test]
fn qc_ctf() {
    let q = parse_qcstatus("ctf:git:P56:S55:F7:MInstaGib::score!!:caps!!:5:7:14:4", 4);
    assert_eq!(q.mode, "CTF");
    assert_eq!(q.mode2, "INSTAGIB");
    assert_eq!(q.impure, 56);
    assert_eq!(q.slots, 55);
    assert_eq!(q.fballowed, 1);
    assert_eq!(q.teamplay, 1);
    assert_eq!(q.stats, 1);
    assert_eq!(q.scoreinfo.player.label, "score");
    assert_eq!(q.scoreinfo.team.prefer, "pri");
    assert_eq!(q.scoreinfo.team.pri.label, "caps");
    assert_eq!(q.scoreinfo.team.pri.score_of(1), Some(7));
    assert_eq!(q.scoreinfo.team.pri.score_of(2), Some(4));
}

#[test]
fn master_ipv4() {
    let mut pkt = Vec::from(&b"\xff\xff\xff\xffgetserversResponse"[..]);
    pkt.push(b'\\');
    pkt.extend_from_slice(&[1, 2, 3, 4, 0x65, 0x90]);
    pkt.push(b'\\');
    pkt.extend_from_slice(b"EOT\0\0\0");
    let (addrs, eot) = parse_getservers_response(&pkt);
    assert!(eot);
    assert_eq!(addrs.len(), 1);
    assert_eq!(addrs[0].to_text(), "1.2.3.4:26000");
    assert_eq!(addrs[0].ip, vec![1, 2, 3, 4]);
    assert_eq!(addrs[0].port, 26000);
}

#[test]
fn player_int_and_float() {
    let p = parse_player_line(br#"10 50 5 "Player""#, &centi).unwrap();
    assert_eq!(p.score, 10);
    assert_eq!(p.ping, 50);
    assert_eq!(p.team, 5);
    assert_eq!(p.name, b"Player");

    let p = parse_player_line(br#"1.5 20 14 "CA""#, &centi).unwrap();
    assert_eq!(p.score, 150);
    assert_eq!(p.team, 14);
}

#[test]
fn status_roundtrip() {
    let body = b"\xff\xff\xff\xffstatusResponse\n\\hostname\\^1Test\\mapname\\dance\\clients\\1\\bots\\0\\sv_maxclients\\16\\gameversion\\22\\qcstatus\\dm:git:P0:S15:F0:MXonotic::score!!\n10 40 0 \"^2foo\"\n";
    let addr = PeerAddr { ip: vec![1, 2, 3, 4], port: 26000 };
    let st = parse_status_response(addr, body, &centi).unwrap();
    assert_eq!(st.rules.get("mapname").unwrap(), b"dance");
    assert_eq!(st.players.len(), 1);
    assert_eq!(st.players[0].score, 10);
}

#[test]
fn listing_reads_back() {
    let mut pkt = b"\xff\xff\xff\xffgetserversResponse".to_vec();
    pkt.extend_from_slice(b"\\");
    pkt.extend_from_slice(&[1, 2, 3, 4, 0x65, 0x90]);
    pkt.extend_from_slice(b"/");
    pkt.extend_from_slice(&[0, 0, 0, 0, 0, 0, 0, 0, 0, 0, 0, 0, 0, 0, 0, 1, 0x65, 0x91]);
    pkt.extend_from_slice(b"\\");
    pkt.extend_from_slice(&[0, 0, 0, 0, 0, 5]);
    pkt.extend_from_slice(b"\\");
    pkt.extend_from_slice(&[9, 9, 9, 9, 0, 0]);
    pkt.extend_from_slice(b"\\EOT\0\0\0");
    let (addrs, eot) = parse_getservers_response(&pkt);
    assert!(eot);
    assert_eq!(addrs.len(), 2);
    assert_eq!(addrs[0].ip, vec![1, 2, 3, 4]);
    assert_eq!(addrs[0].port, 26000);
    let mut v6 = vec![0u8; 15];
    v6.push(1);
    assert_eq!(addrs[1].ip, v6);
    assert_eq!(addrs[1].port, 26001);
}

#[test]
fn team_values_kept_in_team_order() {
    let q = parse_qcstatus("ctf:git:P0:S0:F2:MXonotic::score!!:caps!!:14:4:5:7:14:9", 4);
    assert_eq!(q.scoreinfo.team.pri.score, vec![(1, 7), (2, 9)]);
}
