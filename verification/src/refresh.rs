//! A refresh round: the snapshot built from the status replies, the ban
//! list's fallback, and the schedule's arithmetic (cache freshness, ages
//! and waits, in whole seconds).

use vstd::prelude::*;

use crate::geo::{lookup, spec_country, unknown_country, Geo};
use crate::model::{
    assemble_snapshot, parse_banned, sat_sub, servers_model, spec_assemble, spec_parse_banned,
    strings_view, totals_fit, totals_fit_check, ServerModel, Server, Snapshot,
};
use crate::protocol::{RawStatus, RawStatusModel};
use crate::server::{build_server, build_server_defined, build_server_ok, spec_build_server, texts_view};

verus! {

/// Whether a cached file written at `mtime` is younger than `ttl` at `now`;
/// a missing file is never fresh.
pub open spec fn spec_cache_fresh(mtime: Option<u64>, now: u64, ttl: u64) -> bool {
    match mtime {
        Some(m) => sat_sub(now, m) < ttl,
        None => false,
    }
}

/// Whether a cached file is still fresh.
pub fn cache_fresh(mtime: Option<u64>, now: u64, ttl: u64) -> (r: bool)
    ensures
        r == spec_cache_fresh(mtime, now, ttl),
{
    match mtime {
        Some(m) => now.saturating_sub(m) < ttl,
        None => false,
    }
}

/// The age of a cached file at `now` (0 for a file from the future).
pub open spec fn spec_cache_age(mtime: Option<u64>, now: u64) -> Option<u64> {
    match mtime {
        Some(m) => Some(sat_sub(now, m)),
        None => None,
    }
}

/// The age of a cached file, if there is one.
pub fn cache_age(mtime: Option<u64>, now: u64) -> (r: Option<u64>)
    ensures
        r == spec_cache_age(mtime, now),
{
    match mtime {
        Some(m) => Some(now.saturating_sub(m)),
        None => None,
    }
}

/// How long until something of age `age` is `ttl` old (0 when it already
/// is, or when there is nothing).
pub open spec fn spec_next_delay(age: Option<u64>, ttl: u64) -> u64 {
    match age {
        Some(a) => if a < ttl {
            (ttl - a) as u64
        } else {
            0
        },
        None => 0,
    }
}

/// The wait before the next refresh.
pub fn next_delay(age: Option<u64>, ttl: u64) -> (r: u64)
    ensures
        r == spec_next_delay(age, ttl),
{
    match age {
        Some(a) => if a < ttl {
            ttl - a
        } else {
            0
        },
        None => 0,
    }
}

/// The first wait of a periodic refresh: the rest of the cache's life, or
/// a full period when it is already stale.
pub open spec fn spec_first_wait(age: Option<u64>, ttl: u64) -> u64 {
    if spec_next_delay(age, ttl) == 0 {
        ttl
    } else {
        spec_next_delay(age, ttl)
    }
}

/// The first wait of a periodic refresh.
pub fn first_wait(age: Option<u64>, ttl: u64) -> (r: u64)
    ensures
        r == spec_first_wait(age, ttl),
{
    let d = next_delay(age, ttl);
    if d == 0 {
        ttl
    } else {
        d
    }
}

/// The countries of the replies' addresses, in reply order: looked up in
/// the database when one is open, `??` otherwise.
pub fn countries(raws: &[RawStatus], geo: Option<&Geo>) -> (r: Vec<String>)
    ensures
        r@.len() == raws@.len(),
        forall|i: int|
            0 <= i < r@.len() && (geo is None || !(raws@[i].address.ip@.len() == 4 || raws@[i].address.ip@.len()
                == 16)) ==> (#[trigger] r@[i])@ == unknown_country(),
        forall|i: int|
            0 <= i < r@.len() && (raws@[i].address.ip@.len() == 4 || raws@[i].address.ip@.len() == 16) ==> match geo {
                Some(g) => (#[trigger] r@[i])@ == spec_country(g@, raws@[i].address.ip@),
                None => true,
            },
{
    let mut out: Vec<String> = Vec::new();
    let mut k: usize = 0;
    while k < raws.len()
        invariant
            k <= raws.len(),
            out@.len() == k,
            forall|i: int|
                0 <= i < out@.len() && (geo is None || !(raws@[i].address.ip@.len() == 4 || raws@[i].address.ip@.len()
                    == 16)) ==> (#[trigger] out@[i])@ == unknown_country(),
            forall|i: int|
                0 <= i < out@.len() && (raws@[i].address.ip@.len() == 4 || raws@[i].address.ip@.len() == 16)
                    ==> match geo {
                    Some(g) => (#[trigger] out@[i])@ == spec_country(g@, raws@[i].address.ip@),
                    None => true,
                },
        decreases raws.len() - k,
    {
        let a = &raws[k].address;
        let c = if a.ip.len() == 4 || a.ip.len() == 16 {
            lookup(geo, a)
        } else {
            "??".to_string()
        };
        out.push(c);
        k += 1;
    }
    out
}

pub open spec fn raws_view(v: Seq<RawStatus>) -> Seq<RawStatusModel> {
    v.map_values(|r: RawStatus| r@)
}

/// The servers built from a round of replies, in reply order, each with
/// its country: replies that are banned, too new or nameless give none,
/// and so do replies that `build_server` is not defined on.
pub open spec fn spec_build_all(
    raws: Seq<RawStatusModel>,
    geos: Seq<Seq<char>>,
    banned: Seq<Seq<char>>,
) -> Seq<ServerModel>
    decreases raws.len(),
{
    if raws.len() == 0 || geos.len() < raws.len() {
        seq![]
    } else {
        let i = raws.len() - 1;
        spec_build_all(raws.drop_last(), geos.take(i), banned) + if build_server_defined(raws[i], banned) {
            match spec_build_server(raws[i], geos[i], banned) {
                Some(s) => seq![s],
                None => seq![],
            }
        } else {
            seq![]
        }
    }
}

/// Builds the servers of a round of replies; `geos` gives each reply's
/// country.
pub fn build_servers(raws: Vec<RawStatus>, geos: &[String], banned: &[String]) -> (r: Vec<Server>)
    requires
        geos@.len() == raws@.len(),
    ensures
        servers_model(r@) == spec_build_all(raws_view(raws@), texts_view(geos@), texts_view(banned@)),
{
    let ghost orig = raws@;
    let ghost rv = raws_view(raws@);
    let ghost gv = texts_view(geos@);
    let ghost bv = texts_view(banned@);
    let n = raws.len();
    let mut rest = raws;
    let mut out: Vec<Server> = Vec::new();
    let mut k: usize = 0;
    assert(orig.skip(0) =~= orig);
    assert(rv.take(0) =~= Seq::<RawStatusModel>::empty());
    while k < n
        invariant
            n == orig.len(),
            n == geos@.len(),
            rv == raws_view(orig),
            gv == texts_view(geos@),
            bv == texts_view(banned@),
            k <= n,
            rest@ == orig.skip(k as int),
            servers_model(out@) == spec_build_all(rv.take(k as int), gv.take(k as int), bv),
        decreases n - k,
    {
        let raw = rest.remove(0);
        assert(raw == orig[k as int]);
        assert(rest@ =~= orig.skip(k + 1));
        let ghost t = rv.take(k + 1);
        let ghost tg = gv.take(k + 1);
        assert(t.drop_last() =~= rv.take(k as int));
        assert(tg.take(k as int) =~= gv.take(k as int));
        assert(t[k as int] == raw@);
        assert(tg[k as int] == geos@[k as int]@);
        let ghost before = servers_model(out@);
        if build_server_ok(&raw, banned) {
            let geo = geos[k].clone();
            match build_server(raw, geo, banned) {
                Some(s) => {
                    let ghost sv = s@;
                    let ghost prev = out@;
                    out.push(s);
                    assert(out@ == prev.push(s));
                    assert(servers_model(out@) =~= before.push(sv));
                },
                None => {},
            }
        }
        assert(servers_model(out@) =~= spec_build_all(t, tg, bv));
        k += 1;
    }
    assert(rv.take(n as int) =~= rv);
    assert(gv.take(n as int) =~= gv);
    out
}

/// The snapshot a round of replies makes at `epoch`, or nothing when its
/// totals would not fit in an `i32`.
pub fn refresh_snapshot(raws: Vec<RawStatus>, geos: &[String], banned: &[String], epoch: u64) -> (r: Option<Snapshot>)
    requires
        geos@.len() == raws@.len(),
    ensures
        ({
            let built = spec_build_all(raws_view(raws@), texts_view(geos@), texts_view(banned@));
            match r {
                Some(s) => totals_fit(built) && s@ == spec_assemble(built, epoch),
                None => !totals_fit(built),
            }
        }),
{
    let servers = build_servers(raws, geos, banned);
    if !totals_fit_check(&servers) {
        return None;
    }
    Some(assemble_snapshot(servers, epoch))
}

/// The ban list when the download failed: the list in the cached file if
/// it can be read, else none.
pub fn bans_fallback(cached: Option<&str>) -> (r: Vec<String>)
    ensures
        match cached {
            Some(t) => strings_view(r@) == spec_parse_banned(t@),
            None => r@.len() == 0,
        },
{
    match cached {
        Some(t) => parse_banned(t),
        None => Vec::new(),
    }
}

/// What the scheduler does for the heatmap once the first snapshot is in.
#[derive(Debug, PartialEq, Eq, Structural)]
pub enum HeatmapStep {
    /// Count the sample, then draw the heatmap.
    RecordAndRender,
    /// Only draw it (there is no picture yet).
    RenderOnly,
    /// Keep the picture there is.
    Keep,
}

/// A snapshot with servers is counted and drawn; without, the heatmap is
/// drawn only when there is none yet.
pub fn startup_heatmap_step(totalservers: i32, has_heatmap: bool) -> (r: HeatmapStep)
    ensures
        r == (if totalservers > 0 {
            HeatmapStep::RecordAndRender
        } else if !has_heatmap {
            HeatmapStep::RenderOnly
        } else {
            HeatmapStep::Keep
        }),
{
    if totalservers > 0 {
        HeatmapStep::RecordAndRender
    } else if !has_heatmap {
        HeatmapStep::RenderOnly
    } else {
        HeatmapStep::Keep
    }
}

/// A fresh cache is exactly one whose refresh is still ahead: the file is
/// fresh at `now` if and only if the wait computed from its age is not zero.
pub proof fn law_fresh_iff_wait(mtime: Option<u64>, now: u64, ttl: u64)
    ensures
        spec_cache_fresh(mtime, now, ttl) <==> spec_next_delay(spec_cache_age(mtime, now), ttl) > 0,
{
}

/// The wait and the age add up to the period while the cache is fresh.
pub proof fn law_delay_completes_period(age: u64, ttl: u64)
    requires
        age < ttl,
    ensures
        spec_next_delay(Some(age), ttl) + age == ttl,
{
}

/// The first wait is never zero for a non-zero period and never exceeds it.
pub proof fn law_first_wait_bounds(age: Option<u64>, ttl: u64)
    requires
        ttl > 0,
    ensures
        0 < spec_first_wait(age, ttl) <= ttl,
{
}

} // verus!
