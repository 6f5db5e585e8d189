//! Settings: defaults, `--name value` / `XONLIST_*` options, and what the
//! pages derive from them.

use vstd::prelude::*;

use crate::model::is_text;
use crate::text::{
    append_chars, append_str, chars_of, parse_u32, parse_u64, pieces_view_char, spec_parse_u32,
    spec_parse_u64, split_chars, split_on, starts_with_chars, string_of, trim_chars, trim_text,
};
use crate::view::SiteCtx;

verus! {

/// The program's settings. `listen` is kept as text; it is read as a
/// socket address where the listener is opened. Intervals are in seconds.
#[derive(Clone, Debug)]
pub struct Config {
    pub listen: String,
    pub socket: Option<String>,
    pub data_dir: String,
    pub geodb: String,
    pub domain: String,
    pub title: String,
    pub desc: String,
    pub masters: Vec<String>,
    pub bans_url: String,
    pub server_ttl: u64,
    pub bans_ttl: u64,
    pub activity_interval: u64,
    pub retries: u32,
    pub query_timeout_ms: u64,
}

pub struct ConfigModel {
    pub listen: Seq<char>,
    pub socket: Option<Seq<char>>,
    pub data_dir: Seq<char>,
    pub geodb: Seq<char>,
    pub domain: Seq<char>,
    pub title: Seq<char>,
    pub desc: Seq<char>,
    pub masters: Seq<Seq<char>>,
    pub bans_url: Seq<char>,
    pub server_ttl: u64,
    pub bans_ttl: u64,
    pub activity_interval: u64,
    pub retries: u32,
    pub query_timeout_ms: u64,
}

pub open spec fn texts(v: Seq<String>) -> Seq<Seq<char>> {
    v.map_values(|s: String| s@)
}

pub open spec fn opt_text(o: Option<String>) -> Option<Seq<char>> {
    match o {
        Some(s) => Some(s@),
        None => None,
    }
}

impl View for Config {
    type V = ConfigModel;

    open spec fn view(&self) -> ConfigModel {
        ConfigModel {
            listen: self.listen@,
            socket: opt_text(self.socket),
            data_dir: self.data_dir@,
            geodb: self.geodb@,
            domain: self.domain@,
            title: self.title@,
            desc: self.desc@,
            masters: texts(self.masters@),
            bans_url: self.bans_url@,
            server_ttl: self.server_ttl,
            bans_ttl: self.bans_ttl,
            activity_interval: self.activity_interval,
            retries: self.retries,
            query_timeout_ms: self.query_timeout_ms,
        }
    }
}

/// The non-empty trimmed pieces.
pub open spec fn nonempty_trimmed(p: Seq<Seq<char>>) -> Seq<Seq<char>>
    decreases p.len(),
{
    if p.len() == 0 {
        seq![]
    } else {
        let t = trim_text(p.last());
        nonempty_trimmed(p.drop_last()) + if t.len() > 0 { seq![t] } else { seq![] }
    }
}

/// A comma-separated master list: each entry trimmed, empty ones dropped.
pub open spec fn spec_split_masters(val: Seq<char>) -> Seq<Seq<char>> {
    nonempty_trimmed(split_on(val, ','))
}

/// Splits a comma-separated list of `host` or `host:port`.
pub fn split_masters(val: &str) -> (r: Vec<String>)
    ensures
        texts(r@) == spec_split_masters(val@),
{
    let c = chars_of(val);
    let parts = split_chars(&c, ',');
    let ghost pv = pieces_view_char(parts@);
    let mut out: Vec<String> = Vec::new();
    let mut i: usize = 0;
    assert(pv.take(0) =~= Seq::<Seq<char>>::empty());
    while i < parts.len()
        invariant
            pv == pieces_view_char(parts@),
            i <= parts.len(),
            texts(out@) == nonempty_trimmed(pv.take(i as int)),
        decreases parts.len() - i,
    {
        let t = trim_chars(&parts[i]);
        let ghost tk = pv.take(i + 1);
        assert(tk.drop_last() =~= pv.take(i as int));
        assert(tk.last() == parts@[i as int]@);
        let ghost before = texts(out@);
        if t.len() > 0 {
            out.push(string_of(&t));
            assert(texts(out@) =~= before + seq![t@]);
        }
        assert(texts(out@) =~= nonempty_trimmed(tk));
        i += 1;
    }
    assert(pv.take(parts.len() as int) =~= pv);
    out
}

pub open spec fn default_masters_text() -> Seq<char> {
    "master1.xonotic.org:42863,dpmaster.deathmask.net,dpmaster.tchr.no,dpm.dpmaster.org:27777"@
}

/// The settings before any option is read.
pub open spec fn spec_defaults() -> ConfigModel {
    ConfigModel {
        listen: "127.0.0.1:8080"@,
        socket: None,
        data_dir: "data"@,
        geodb: "/usr/local/share/GeoIP2_k/GeoLite2-City.mmdb"@,
        domain: "xonotic.lifeisabug.com"@,
        title: "XonList - Xonotic Server List"@,
        desc: "XonList - Gameserver list for Xonotic. Servers, players, scores & more - Find Xonotic servers to play on."@,
        masters: spec_split_masters(default_masters_text()),
        bans_url: "https://gitlab.com/xonotic/xonotic/raw/master/misc/infrastructure/checkupdate.txt"@,
        server_ttl: 300,
        bans_ttl: 86400,
        activity_interval: 1800,
        retries: 5,
        query_timeout_ms: 800,
    }
}

/// Whether `s` reads as a socket address (`SocketAddr`'s `FromStr`:
/// `a.b.c.d:port` or `[v6]:port`).
pub uninterp spec fn socket_addr_syntax(s: Seq<char>) -> bool;

/// Reads `s` with `core::net::SocketAddr`'s `FromStr`; claimed: the
/// outcome is `socket_addr_syntax` of the text (a function of the text
/// alone).
#[verifier::external_body]
fn is_socket_addr(s: &str) -> (r: bool)
    ensures
        r == socket_addr_syntax(s@),
{
    s.parse::<core::net::SocketAddr>().is_ok()
}

/// The error text for an option value that does not read.
pub open spec fn value_error(prefix: Seq<char>, val: Seq<char>) -> Seq<char> {
    prefix + val
}

/// The settings after `--name value`, or the error message.
pub open spec fn spec_set(c: ConfigModel, name: Seq<char>, val: Seq<char>) -> Result<ConfigModel, Seq<char>> {
    if name == "listen"@ {
        if socket_addr_syntax(val) {
            Ok(ConfigModel { listen: val, ..c })
        } else {
            Err(value_error("listen: expected host:port, got "@, val))
        }
    } else if name == "socket"@ {
        Ok(ConfigModel { socket: if val.len() == 0 { None } else { Some(val) }, ..c })
    } else if name == "data-dir"@ {
        Ok(ConfigModel { data_dir: val, ..c })
    } else if name == "geodb"@ {
        Ok(ConfigModel { geodb: val, ..c })
    } else if name == "domain"@ {
        Ok(ConfigModel { domain: val, ..c })
    } else if name == "title"@ {
        Ok(ConfigModel { title: val, ..c })
    } else if name == "desc"@ {
        Ok(ConfigModel { desc: val, ..c })
    } else if name == "masters"@ {
        Ok(ConfigModel { masters: spec_split_masters(val), ..c })
    } else if name == "bans-url"@ {
        Ok(ConfigModel { bans_url: val, ..c })
    } else if name == "server-ttl"@ || name == "bans-ttl"@ || name == "activity-interval"@ {
        match spec_parse_u64(val) {
            Some(v) => Ok(
                if name == "server-ttl"@ {
                    ConfigModel { server_ttl: v, ..c }
                } else if name == "bans-ttl"@ {
                    ConfigModel { bans_ttl: v, ..c }
                } else {
                    ConfigModel { activity_interval: v, ..c }
                },
            ),
            None => Err(value_error("expected seconds, got "@, val)),
        }
    } else if name == "retries"@ {
        match spec_parse_u32(val) {
            Some(v) => Ok(ConfigModel { retries: v, ..c }),
            None => Err(value_error("retries: expected an integer, got "@, val)),
        }
    } else if name == "query-timeout-ms"@ {
        match spec_parse_u64(val) {
            Some(v) => Ok(ConfigModel { query_timeout_ms: v, ..c }),
            None => Err(value_error("query-timeout-ms: expected an integer, got "@, val)),
        }
    } else {
        Err("unknown option --"@ + name)
    }
}

/// Setting an option again replaces what the first setting did: with the
/// command line read after the environment, a command-line value wins.
pub proof fn law_later_setting_wins(c: ConfigModel, name: Seq<char>, first: Seq<char>, second: Seq<char>)
    requires
        spec_set(c, name, first) is Ok,
    ensures
        spec_set(spec_set(c, name, first)->Ok_0, name, second) == spec_set(c, name, second),
{
}

/// Each option is stored in its own setting and nowhere else: a seconds
/// option (`server-ttl`, `bans-ttl`, `activity-interval`), `retries` and
/// `query-timeout-ms` take the value's number, and are refused exactly
/// when the value is not one; `listen` takes a socket address and refuses
/// anything else; `socket` is unset by an empty value; `masters` takes
/// the list the value names; other text options take the value as it is.
pub proof fn law_set_stores(c: ConfigModel, val: Seq<char>)
    ensures
        (spec_set(c, "server-ttl"@, val) is Ok) == (spec_parse_u64(val) is Some),
        spec_parse_u64(val) matches Some(v) ==> spec_set(c, "server-ttl"@, val) matches Ok(c2) && c2.server_ttl
            == v && (ConfigModel { server_ttl: c.server_ttl, ..c2 }) == c,
        (spec_set(c, "bans-ttl"@, val) is Ok) == (spec_parse_u64(val) is Some),
        spec_parse_u64(val) matches Some(v) ==> spec_set(c, "bans-ttl"@, val) matches Ok(c2) && c2.bans_ttl == v
            && (ConfigModel { bans_ttl: c.bans_ttl, ..c2 }) == c,
        (spec_set(c, "activity-interval"@, val) is Ok) == (spec_parse_u64(val) is Some),
        spec_parse_u64(val) matches Some(v) ==> spec_set(c, "activity-interval"@, val) matches Ok(c2)
            && c2.activity_interval == v && (ConfigModel { activity_interval: c.activity_interval, ..c2 }) == c,
        (spec_set(c, "retries"@, val) is Ok) == (spec_parse_u32(val) is Some),
        spec_parse_u32(val) matches Some(v) ==> spec_set(c, "retries"@, val) matches Ok(c2) && c2.retries == v
            && (ConfigModel { retries: c.retries, ..c2 }) == c,
        (spec_set(c, "query-timeout-ms"@, val) is Ok) == (spec_parse_u64(val) is Some),
        spec_parse_u64(val) matches Some(v) ==> spec_set(c, "query-timeout-ms"@, val) matches Ok(c2)
            && c2.query_timeout_ms == v && (ConfigModel { query_timeout_ms: c.query_timeout_ms, ..c2 }) == c,
        spec_set(c, "data-dir"@, val) == Ok::<ConfigModel, Seq<char>>((ConfigModel { data_dir: val, ..c })),
        spec_set(c, "geodb"@, val) == Ok::<ConfigModel, Seq<char>>((ConfigModel { geodb: val, ..c })),
        spec_set(c, "domain"@, val) == Ok::<ConfigModel, Seq<char>>((ConfigModel { domain: val, ..c })),
        spec_set(c, "title"@, val) == Ok::<ConfigModel, Seq<char>>((ConfigModel { title: val, ..c })),
        spec_set(c, "desc"@, val) == Ok::<ConfigModel, Seq<char>>((ConfigModel { desc: val, ..c })),
        spec_set(c, "bans-url"@, val) == Ok::<ConfigModel, Seq<char>>((ConfigModel { bans_url: val, ..c })),
        (spec_set(c, "listen"@, val) is Ok) == socket_addr_syntax(val),
        socket_addr_syntax(val) ==> spec_set(c, "listen"@, val) == Ok::<ConfigModel, Seq<char>>(
            (ConfigModel { listen: val, ..c }),
        ),
        val.len() == 0 ==> spec_set(c, "socket"@, val) == Ok::<ConfigModel, Seq<char>>(
            (ConfigModel { socket: None, ..c }),
        ),
        val.len() > 0 ==> spec_set(c, "socket"@, val) == Ok::<ConfigModel, Seq<char>>(
            (ConfigModel { socket: Some(val), ..c }),
        ),
        spec_set(c, "masters"@, val) == Ok::<ConfigModel, Seq<char>>(
            (ConfigModel { masters: spec_split_masters(val), ..c }),
        ),
{
    reveal_strlit("listen");
    reveal_strlit("socket");
    reveal_strlit("data-dir");
    reveal_strlit("geodb");
    reveal_strlit("domain");
    reveal_strlit("title");
    reveal_strlit("desc");
    reveal_strlit("masters");
    reveal_strlit("bans-url");
    reveal_strlit("server-ttl");
    reveal_strlit("bans-ttl");
    reveal_strlit("activity-interval");
    reveal_strlit("retries");
    reveal_strlit("query-timeout-ms");
    // The option names differ in length, or else in one letter.
    assert("listen"@.len() == 6);
    assert("socket"@.len() == 6);
    assert("data-dir"@.len() == 8);
    assert("geodb"@.len() == 5);
    assert("domain"@.len() == 6);
    assert("title"@.len() == 5);
    assert("desc"@.len() == 4);
    assert("masters"@.len() == 7);
    assert("bans-url"@.len() == 8);
    assert("server-ttl"@.len() == 10);
    assert("bans-ttl"@.len() == 8);
    assert("activity-interval"@.len() == 17);
    assert("retries"@.len() == 7);
    assert("query-timeout-ms"@.len() == 16);
    assert("socket"@[0] != "listen"@[0]);
    assert("domain"@[0] != "listen"@[0]);
    assert("domain"@[0] != "socket"@[0]);
    assert("title"@[0] != "geodb"@[0]);
    assert("bans-url"@[0] != "data-dir"@[0]);
    assert("bans-ttl"@[0] != "data-dir"@[0]);
    assert("bans-ttl"@[5] != "bans-url"@[5]);
    assert("retries"@[0] != "masters"@[0]);
}

fn message(prefix: &str, val: &str) -> (r: String)
    ensures
        r@ == prefix@ + val@,
{
    let mut v = chars_of(prefix);
    append_str(&mut v, val);
    string_of(&v)
}

impl Config {
    /// The settings before any option is read.
    pub fn defaults() -> (r: Config)
        ensures
            r@ == spec_defaults(),
    {
        Config {
            listen: "127.0.0.1:8080".to_owned(),
            socket: None,
            data_dir: "data".to_owned(),
            geodb: "/usr/local/share/GeoIP2_k/GeoLite2-City.mmdb".to_owned(),
            domain: "xonotic.lifeisabug.com".to_owned(),
            title: "XonList - Xonotic Server List".to_owned(),
            desc: "XonList - Gameserver list for Xonotic. Servers, players, scores & more - Find Xonotic servers to play on.".to_owned(),
            masters: split_masters(
                "master1.xonotic.org:42863,dpmaster.deathmask.net,dpmaster.tchr.no,dpm.dpmaster.org:27777",
            ),
            bans_url: "https://gitlab.com/xonotic/xonotic/raw/master/misc/infrastructure/checkupdate.txt".to_owned(),
            server_ttl: 300,
            bans_ttl: 86400,
            activity_interval: 1800,
            retries: 5,
            query_timeout_ms: 800,
        }
    }

    /// Applies one option (`--name value` or its `XONLIST_*` variable).
    /// Unknown names and values that do not read are refused with the
    /// message the program prints; the settings are then unchanged.
    pub fn set(&mut self, name: &str, val: &str) -> (r: Result<(), String>)
        ensures
            match spec_set(old(self)@, name@, val@) {
                Ok(c) => r is Ok && final(self)@ == c,
                Err(m) => r matches Err(e) && e@ == m && final(self)@ == old(self)@,
            },
    {
        if is_text(name, "listen") {
            if !is_socket_addr(val) {
                return Err(message("listen: expected host:port, got ", val));
            }
            self.listen = val.to_owned();
        } else if is_text(name, "socket") {
            self.socket = if chars_of(val).len() == 0 { None } else { Some(val.to_owned()) };
        } else if is_text(name, "data-dir") {
            self.data_dir = val.to_owned();
        } else if is_text(name, "geodb") {
            self.geodb = val.to_owned();
        } else if is_text(name, "domain") {
            self.domain = val.to_owned();
        } else if is_text(name, "title") {
            self.title = val.to_owned();
        } else if is_text(name, "desc") {
            self.desc = val.to_owned();
        } else if is_text(name, "masters") {
            self.masters = split_masters(val);
        } else if is_text(name, "bans-url") {
            self.bans_url = val.to_owned();
        } else if is_text(name, "server-ttl") || is_text(name, "bans-ttl") || is_text(
            name,
            "activity-interval",
        ) {
            match parse_u64(&chars_of(val)) {
                Some(v) => {
                    if is_text(name, "server-ttl") {
                        self.server_ttl = v;
                    } else if is_text(name, "bans-ttl") {
                        self.bans_ttl = v;
                    } else {
                        self.activity_interval = v;
                    }
                },
                None => return Err(message("expected seconds, got ", val)),
            }
        } else if is_text(name, "retries") {
            match parse_u32(&chars_of(val)) {
                Some(v) => self.retries = v,
                None => return Err(message("retries: expected an integer, got ", val)),
            }
        } else if is_text(name, "query-timeout-ms") {
            match parse_u64(&chars_of(val)) {
                Some(v) => self.query_timeout_ms = v,
                None => return Err(message("query-timeout-ms: expected an integer, got ", val)),
            }
        } else {
            return Err(message("unknown option --", name));
        }
        Ok(())
    }

    /// The base URL of the site's assets: plain `http` for local names
    /// (`localhost...`, `127...`, `[...`), `https` otherwise.
    pub fn asset_base(&self) -> (r: String)
        ensures
            r@ == spec_asset_base(self.domain@),
    {
        let d = chars_of(self.domain.as_str());
        let local = starts_with_chars(&d, &chars_of("localhost")) || starts_with_chars(
            &d,
            &chars_of("127."),
        );
        let mut v = if local { chars_of("http://") } else { chars_of("https://") };
        append_chars(&mut v, &d);
        string_of(&v)
    }
}

pub open spec fn text_starts_with(s: Seq<char>, p: Seq<char>) -> bool {
    p.len() <= s.len() && s.take(p.len() as int) == p
}

/// The assets' base URL for a site name.
pub open spec fn spec_asset_base(d: Seq<char>) -> Seq<char> {
    if text_starts_with(d, "localhost"@) || text_starts_with(d, "127."@) {
        "http://"@ + d
    } else {
        "https://"@ + d
    }
}

/// The option an `XONLIST_*` environment variable sets.
pub open spec fn spec_env_name(key: Seq<char>) -> Option<Seq<char>> {
    if key == "XONLIST_LISTEN"@ {
        Some("listen"@)
    } else if key == "XONLIST_SOCKET"@ {
        Some("socket"@)
    } else if key == "XONLIST_DATA_DIR"@ {
        Some("data-dir"@)
    } else if key == "XONLIST_GEODB"@ {
        Some("geodb"@)
    } else if key == "XONLIST_DOMAIN"@ {
        Some("domain"@)
    } else if key == "XONLIST_TITLE"@ {
        Some("title"@)
    } else if key == "XONLIST_DESC"@ {
        Some("desc"@)
    } else if key == "XONLIST_MASTERS"@ {
        Some("masters"@)
    } else if key == "XONLIST_BANS_URL"@ {
        Some("bans-url"@)
    } else if key == "XONLIST_SERVER_TTL"@ {
        Some("server-ttl"@)
    } else if key == "XONLIST_BANS_TTL"@ {
        Some("bans-ttl"@)
    } else if key == "XONLIST_ACTIVITY_INTERVAL"@ {
        Some("activity-interval"@)
    } else if key == "XONLIST_RETRIES"@ {
        Some("retries"@)
    } else if key == "XONLIST_QUERY_TIMEOUT_MS"@ {
        Some("query-timeout-ms"@)
    } else {
        None
    }
}

/// The option an `XONLIST_*` environment variable sets, if any.
pub fn env_name(key: &str) -> (r: Option<&'static str>)
    ensures
        crate::model::opt_str_view(r) == spec_env_name(key@),
{
    if is_text(key, "XONLIST_LISTEN") {
        Some("listen")
    } else if is_text(key, "XONLIST_SOCKET") {
        Some("socket")
    } else if is_text(key, "XONLIST_DATA_DIR") {
        Some("data-dir")
    } else if is_text(key, "XONLIST_GEODB") {
        Some("geodb")
    } else if is_text(key, "XONLIST_DOMAIN") {
        Some("domain")
    } else if is_text(key, "XONLIST_TITLE") {
        Some("title")
    } else if is_text(key, "XONLIST_DESC") {
        Some("desc")
    } else if is_text(key, "XONLIST_MASTERS") {
        Some("masters")
    } else if is_text(key, "XONLIST_BANS_URL") {
        Some("bans-url")
    } else if is_text(key, "XONLIST_SERVER_TTL") {
        Some("server-ttl")
    } else if is_text(key, "XONLIST_BANS_TTL") {
        Some("bans-ttl")
    } else if is_text(key, "XONLIST_ACTIVITY_INTERVAL") {
        Some("activity-interval")
    } else if is_text(key, "XONLIST_RETRIES") {
        Some("retries")
    } else if is_text(key, "XONLIST_QUERY_TIMEOUT_MS") {
        Some("query-timeout-ms")
    } else {
        None
    }
}

/// The settings after the `XONLIST_*` variables of `vars` in turn (other
/// variables are passed over), and whether they all read: at the first
/// error, the settings reached so far and the message.
pub open spec fn spec_env(c: ConfigModel, vars: Seq<(Seq<char>, Seq<char>)>) -> (ConfigModel, Result<(), Seq<char>>)
    decreases vars.len(),
{
    if vars.len() == 0 {
        (c, Ok(()))
    } else {
        match spec_env_name(vars[0].0) {
            Some(n) => match spec_set(c, n, vars[0].1) {
                Ok(c2) => spec_env(c2, vars.drop_first()),
                Err(e) => (c, Err(e)),
            },
            None => spec_env(c, vars.drop_first()),
        }
    }
}

/// The settings from the defaults, the variables `vars` and then the
/// arguments `args`, with how the arguments ended; or the first error.
pub open spec fn spec_from_sources(vars: Seq<(Seq<char>, Seq<char>)>, args: Seq<Seq<char>>) -> Result<
    (ConfigModel, ArgsEnd),
    Seq<char>,
> {
    let e = spec_env(spec_defaults(), vars);
    match e.1 {
        Err(m) => Err(m),
        Ok(()) => {
            let a = spec_args(e.0, args);
            match a.1 {
                Ok(end) => Ok((a.0, end)),
                Err(m) => Err(m),
            }
        },
    }
}

pub open spec fn pairs_text(v: Seq<(String, String)>) -> Seq<(Seq<char>, Seq<char>)> {
    v.map_values(|p: (String, String)| (p.0@, p.1@))
}

/// How the command line ended: read to the end, or at a request for help.
#[derive(Debug, PartialEq, Eq, Structural)]
pub enum ArgsEnd {
    Done,
    Help,
}

/// The settings after the command-line arguments `args`: `--help`/`-h`
/// stops there; `--name=value` and `--name value` set an option; anything
/// else, or a last `--name` without a value, is an error, which stops with
/// the settings reached so far.
pub open spec fn spec_args(c: ConfigModel, args: Seq<Seq<char>>) -> (ConfigModel, Result<ArgsEnd, Seq<char>>)
    decreases args.len(),
{
    if args.len() == 0 {
        (c, Ok(ArgsEnd::Done))
    } else {
        let a = args[0];
        if a == "--help"@ || a == "-h"@ {
            (c, Ok(ArgsEnd::Help))
        } else if !text_starts_with(a, "--"@) {
            (c, Err("unknown argument "@ + a))
        } else {
            let rest = a.skip(2);
            match crate::text::split_once(rest, '=') {
                Some((name, val)) => match spec_set(c, name, val) {
                    Ok(c2) => spec_args(c2, args.drop_first()),
                    Err(e) => (c, Err(e)),
                },
                None => if args.len() < 2 {
                    (c, Err("missing value for --"@ + rest))
                } else {
                    match spec_set(c, rest, args[1]) {
                        Ok(c2) => spec_args(c2, args.skip(2)),
                        Err(e) => (c, Err(e)),
                    }
                },
            }
        }
    }
}

/// `dir` joined with a file name as `PathBuf::push` joins a relative
/// name: with a `/` between them unless `dir` is empty or ends with one.
pub open spec fn spec_join(dir: Seq<char>, name: Seq<char>) -> Seq<char> {
    if dir.len() == 0 {
        name
    } else if dir.last() == '/' {
        dir + name
    } else {
        dir + seq!['/'] + name
    }
}

fn join(dir: &str, name: &str) -> (r: String)
    ensures
        r@ == spec_join(dir@, name@),
{
    let mut v = chars_of(dir);
    if v.len() > 0 && v[v.len() - 1] != '/' {
        v.push('/');
    }
    append_str(&mut v, name);
    assert(v@ =~= spec_join(dir@, name@));
    string_of(&v)
}

impl Config {
    /// Applies the `XONLIST_*` variables among `vars`, in order.
    pub fn apply_env(&mut self, vars: &[(String, String)]) -> (r: Result<(), String>)
        ensures
            final(self)@ == spec_env(old(self)@, pairs_text(vars@)).0,
            match spec_env(old(self)@, pairs_text(vars@)).1 {
                Ok(()) => r is Ok,
                Err(m) => r matches Err(e) && e@ == m,
            },
    {
        let ghost pv = pairs_text(vars@);
        let ghost goal = spec_env(self@, pv);
        let mut i: usize = 0;
        assert(pv.skip(0) =~= pv);
        while i < vars.len()
            invariant
                pv == pairs_text(vars@),
                i <= vars.len(),
                goal == spec_env(old(self)@, pv),
                goal == spec_env(self@, pv.skip(i as int)),
            decreases vars.len() - i,
        {
            let (k, v) = &vars[i];
            assert(pv.skip(i as int)[0] == (k@, v@));
            assert(pv.skip(i as int).drop_first() =~= pv.skip(i + 1));
            match env_name(k.as_str()) {
                Some(n) => {
                    match self.set(n, v.as_str()) {
                        Ok(()) => {},
                        Err(e) => {
                            return Err(e);
                        },
                    }
                },
                None => {},
            }
            i += 1;
        }
        assert(pv.skip(vars.len() as int).len() == 0);
        Ok(())
    }

    /// Applies the command-line arguments (without the program name).
    pub fn apply_args(&mut self, args: &[String]) -> (r: Result<ArgsEnd, String>)
        ensures
            final(self)@ == spec_args(old(self)@, texts(args@)).0,
            match spec_args(old(self)@, texts(args@)).1 {
                Ok(end) => r == Ok::<ArgsEnd, String>(end),
                Err(m) => r matches Err(e) && e@ == m,
            },
    {
        let ghost av = texts(args@);
        let ghost goal = spec_args(self@, av);
        let mut i: usize = 0;
        assert(av.skip(0) =~= av);
        while i < args.len()
            invariant
                av == texts(args@),
                i <= args.len(),
                goal == spec_args(old(self)@, av),
                goal == spec_args(self@, av.skip(i as int)),
            decreases args.len() - i,
        {
            let ghost rest_args = av.skip(i as int);
            let a = &args[i];
            assert(rest_args[0] == a@);
            assert(rest_args.drop_first() =~= av.skip(i + 1));
            if is_text(a.as_str(), "--help") || is_text(a.as_str(), "-h") {
                return Ok(ArgsEnd::Help);
            }
            let c = chars_of(a.as_str());
            if !starts_with_chars(&c, &chars_of("--")) {
                return Err(message("unknown argument ", a.as_str()));
            }
            proof { reveal_strlit("--"); }
            assert(c@.len() >= 2);
            let rest = crate::text::sub_chars(&c, 2, c.len());
            assert(rest@ =~= a@.skip(2));
            let eq = crate::text::find_char(&rest, '=');
            proof { crate::text::lemma_first_index_bounds(rest@, '='); }
            if eq < rest.len() {
                let name = crate::text::sub_chars(&rest, 0, eq);
                let val = crate::text::sub_chars(&rest, eq + 1, rest.len());
                assert(name@ =~= rest@.take(eq as int));
                assert(val@ =~= rest@.skip(eq + 1));
                let ns = string_of(&name);
                let vs = string_of(&val);
                match self.set(ns.as_str(), vs.as_str()) {
                    Ok(()) => {},
                    Err(e) => {
                        return Err(e);
                    },
                }
                i += 1;
            } else {
                let rs = string_of(&rest);
                if i + 1 >= args.len() {
                    return Err(message("missing value for --", rs.as_str()));
                }
                assert(rest_args[1] == args@[i + 1]@);
                assert(rest_args.skip(2) =~= av.skip(i + 2));
                match self.set(rs.as_str(), args[i + 1].as_str()) {
                    Ok(()) => {},
                    Err(e) => {
                        return Err(e);
                    },
                }
                i += 2;
            }
        }
        assert(av.skip(args.len() as int).len() == 0);
        Ok(ArgsEnd::Done)
    }

    /// The settings a run starts with: the defaults, then the `XONLIST_*`
    /// variables `vars`, then the command-line arguments `args`, so that
    /// the command line wins over the environment. The first error of
    /// either stops it.
    pub fn from_sources(vars: &[(String, String)], args: &[String]) -> (r: Result<(Config, ArgsEnd), String>)
        ensures
            match spec_from_sources(pairs_text(vars@), texts(args@)) {
                Ok((c, end)) => r matches Ok((cfg, e)) && cfg@ == c && e == end,
                Err(m) => r matches Err(e) && e@ == m,
            },
    {
        let mut cfg = Config::defaults();
        match cfg.apply_env(vars) {
            Ok(()) => {},
            Err(e) => {
                return Err(e);
            },
        }
        match cfg.apply_args(args) {
            Ok(end) => Ok((cfg, end)),
            Err(e) => Err(e),
        }
    }

    /// The cached snapshot of the server list.
    pub fn snapshot_path(&self) -> (r: String)
        ensures
            r@ == spec_join(self.data_dir@, "snapshot.json"@),
    {
        join(self.data_dir.as_str(), "snapshot.json")
    }

    /// The cached ban list.
    pub fn bans_path(&self) -> (r: String)
        ensures
            r@ == spec_join(self.data_dir@, "checkupdate.txt"@),
    {
        join(self.data_dir.as_str(), "checkupdate.txt")
    }

    /// The activity database.
    pub fn activity_path(&self) -> (r: String)
        ensures
            r@ == spec_join(self.data_dir@, "activity.db"@),
    {
        join(self.data_dir.as_str(), "activity.db")
    }

    /// The rendered heatmap.
    pub fn heatmap_path(&self) -> (r: String)
        ensures
            r@ == spec_join(self.data_dir@, "heatmap.png"@),
    {
        join(self.data_dir.as_str(), "heatmap.png")
    }
}

/// Where the site is served: a Unix socket when one is set (it wins over
/// the TCP address), else the TCP address.
#[derive(Debug, PartialEq, Eq)]
pub enum Endpoint {
    Socket(String),
    Tcp(String),
}

impl Config {
    /// The endpoint to serve on.
    pub fn endpoint(&self) -> (r: Endpoint)
        ensures
            match self.socket {
                Some(p) => r matches Endpoint::Socket(q) && q@ == p@,
                None => r matches Endpoint::Tcp(a) && a@ == self.listen@,
            },
    {
        match &self.socket {
            Some(p) => Endpoint::Socket(p.clone()),
            None => Endpoint::Tcp(self.listen.clone()),
        }
    }
}

/// How much the program logs.
#[derive(Debug, PartialEq, Eq, Structural)]
pub enum LogLevel {
    Error,
    Warn,
    Info,
    Debug,
    Trace,
}

/// The log level that `RUST_LOG` asks for: `error`, `warn`, `debug` or
/// `trace`, alone or as `xonlist=...`; anything else, or nothing, is `info`.
pub open spec fn spec_log_level(v: Option<Seq<char>>) -> LogLevel {
    match v {
        Some(t) => if t == "error"@ || t == "xonlist=error"@ {
            LogLevel::Error
        } else if t == "warn"@ || t == "xonlist=warn"@ {
            LogLevel::Warn
        } else if t == "debug"@ || t == "xonlist=debug"@ {
            LogLevel::Debug
        } else if t == "trace"@ || t == "xonlist=trace"@ {
            LogLevel::Trace
        } else {
            LogLevel::Info
        },
        None => LogLevel::Info,
    }
}

pub fn log_level(rust_log: Option<&str>) -> (r: LogLevel)
    ensures
        r == spec_log_level(
            match rust_log {
                Some(t) => Some(t@),
                None => None,
            },
        ),
{
    match rust_log {
        Some(t) => if is_text(t, "error") || is_text(t, "xonlist=error") {
            LogLevel::Error
        } else if is_text(t, "warn") || is_text(t, "xonlist=warn") {
            LogLevel::Warn
        } else if is_text(t, "debug") || is_text(t, "xonlist=debug") {
            LogLevel::Debug
        } else if is_text(t, "trace") || is_text(t, "xonlist=trace") {
            LogLevel::Trace
        } else {
            LogLevel::Info
        },
        None => LogLevel::Info,
    }
}

impl SiteCtx {
    /// The site values of a configuration; `rjz` selects the alternative
    /// style.
    pub fn from_config(cfg: &Config, rjz: bool) -> (r: SiteCtx)
        ensures
            r.domain@ == cfg.domain@,
            r.title@ == cfg.title@,
            r.desc@ == cfg.desc@,
            r.asset_base@ == spec_asset_base(cfg.domain@),
            r.rjz == rjz,
            !r.noindex,
    {
        SiteCtx {
            domain: cfg.domain.clone(),
            title: cfg.title.clone(),
            desc: cfg.desc.clone(),
            asset_base: cfg.asset_base(),
            rjz,
            noindex: false,
        }
    }

    /// The site values of a `/server/...` page: as `from_config`, and not
    /// to be indexed.
    pub fn for_server_page(cfg: &Config, rjz: bool) -> (r: SiteCtx)
        ensures
            r.domain@ == cfg.domain@,
            r.title@ == cfg.title@,
            r.desc@ == cfg.desc@,
            r.asset_base@ == spec_asset_base(cfg.domain@),
            r.rjz == rjz,
            r.noindex,
    {
        let mut site = SiteCtx::from_config(cfg, rjz);
        site.noindex = true;
        site
    }
}

} // verus!
