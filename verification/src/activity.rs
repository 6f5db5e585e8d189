//! Hourly activity: which servers are counted, the per-hour upsert
//! statement, and the totals of a stored row.

use vstd::prelude::*;

use crate::model::{servers_model, ServerModel, Snapshot};
use crate::text::{append_str, int_chars, int_text, string_of};

verus! {

/// One stored row: a server, its last seen name, and how many samples
/// found it active in each UTC hour.
#[derive(Debug, Clone)]
pub struct ActivityRow {
    pub server: String,
    pub name: String,
    pub hours: [i64; 24],
}

pub struct ActivityRowModel {
    pub server: Seq<char>,
    pub name: Seq<char>,
    pub hours: Seq<i64>,
}

impl View for ActivityRow {
    type V = ActivityRowModel;

    open spec fn view(&self) -> ActivityRowModel {
        ActivityRowModel { server: self.server@, name: self.name@, hours: self.hours@ }
    }
}

/// The sum of the hourly counts.
pub open spec fn hours_sum(h: Seq<i64>) -> int
    decreases h.len(),
{
    if h.len() == 0 {
        0
    } else {
        hours_sum(h.drop_last()) + h.last()
    }
}

/// Every running sum of the hourly counts fits in an `i64`.
pub open spec fn sums_fit(h: Seq<i64>) -> bool {
    forall|k: int| 0 <= k <= h.len() ==> i64::MIN <= #[trigger] hours_sum(h.take(k)) <= i64::MAX
}

impl ActivityRow {
    /// The number of active samples over all hours.
    pub fn total(&self) -> (r: i64)
        requires
            sums_fit(self.hours@),
        ensures
            r == hours_sum(self.hours@),
    {
        let ghost h = self.hours@;
        let mut sum: i64 = 0;
        let mut i: usize = 0;
        assert(h.take(0) =~= Seq::<i64>::empty());
        while i < 24
            invariant
                h == self.hours@,
                h.len() == 24,
                i <= 24,
                sums_fit(h),
                sum == hours_sum(h.take(i as int)),
            decreases 24 - i,
        {
            assert(h.take(i + 1).drop_last() =~= h.take(i as int));
            assert(i64::MIN <= hours_sum(h.take(i + 1)) <= i64::MAX);
            sum = sum + self.hours[i];
            i += 1;
        }
        assert(h.take(24) =~= h);
        sum
    }
}

impl ActivityRow {
    /// Whether the total can be taken: every running sum of the hourly
    /// counts fits in an `i64`.
    pub fn sums_fit_check(&self) -> (r: bool)
        ensures
            r == sums_fit(self.hours@),
    {
        let ghost h = self.hours@;
        let mut sum: i128 = 0;
        let mut i: usize = 0;
        assert(h.take(0) =~= Seq::<i64>::empty());
        while i < 24
            invariant
                h == self.hours@,
                h.len() == 24,
                i <= 24,
                sum == hours_sum(h.take(i as int)),
                forall|k: int| 0 <= k <= i ==> i64::MIN <= #[trigger] hours_sum(h.take(k)) <= i64::MAX,
            decreases 24 - i,
        {
            assert(h.take(i + 1).drop_last() =~= h.take(i as int));
            sum = sum + self.hours[i] as i128;
            if sum < i64::MIN as i128 || sum > i64::MAX as i128 {
                assert(hours_sum(h.take(i + 1)) == sum);
                assert(!(i64::MIN <= hours_sum(h.take(i + 1)) <= i64::MAX));
                return false;
            }
            i += 1;
        }
        assert(h.take(24) =~= h);
        true
    }
}

/// Whether a server counts as active: someone, player or bot, is on it.
pub open spec fn is_active(s: ServerModel) -> bool {
    s.numplayers + s.numbots > 0
}

/// The (address, name) pairs of the active servers, in snapshot order.
pub open spec fn recordable(ss: Seq<ServerModel>) -> Seq<(Seq<char>, Seq<char>)>
    decreases ss.len(),
{
    if ss.len() == 0 {
        seq![]
    } else {
        recordable(ss.drop_last()) + if is_active(ss.last()) {
            seq![(ss.last().address, ss.last().realname)]
        } else {
            seq![]
        }
    }
}

/// `p` is the address and name of an active server of `ss`.
pub open spec fn from_active(ss: Seq<ServerModel>, p: (Seq<char>, Seq<char>)) -> bool {
    exists|i: int| 0 <= i < ss.len() && is_active(#[trigger] ss[i]) && p == (ss[i].address, ss[i].realname)
}

/// A sample counts active servers only, each under its address and name
/// as the snapshot has them, and every active server of the snapshot.
pub proof fn law_recorded_are_active(ss: Seq<ServerModel>)
    ensures
        forall|k: int| 0 <= k < recordable(ss).len() ==> from_active(ss, #[trigger] recordable(ss)[k]),
        forall|i: int|
            0 <= i < ss.len() && is_active(#[trigger] ss[i]) ==> recordable(ss).contains(
                (ss[i].address, ss[i].realname),
            ),
    decreases ss.len(),
{
    if ss.len() > 0 {
        let d = ss.drop_last();
        let x = ss.last();
        law_recorded_are_active(d);
        let r = recordable(ss);
        let rd = recordable(d);
        assert forall|k: int| 0 <= k < r.len() implies from_active(ss, #[trigger] r[k]) by {
            if k < rd.len() {
                assert(r[k] == rd[k]);
                assert(from_active(d, rd[k]));
                let i = choose|i: int| 0 <= i < d.len() && is_active(#[trigger] d[i]) && rd[k] == (d[i].address, d[i].realname);
                assert(ss[i] == d[i]);
            } else {
                assert(r[k] == (x.address, x.realname));
                assert(ss[ss.len() - 1] == x);
            }
        }
        assert forall|i: int| 0 <= i < ss.len() && is_active(#[trigger] ss[i]) implies r.contains((ss[i].address, ss[i].realname)) by {
            if i < d.len() {
                assert(ss[i] == d[i]);
                let k = choose|k: int| 0 <= k < rd.len() && rd[k] == (d[i].address, d[i].realname);
                assert(r[k] == rd[k]);
            } else {
                assert(r[rd.len() as int] == (x.address, x.realname));
            }
        }
    } else {
        assert(recordable(ss).len() == 0);
    }
}

pub open spec fn pairs_view(v: Seq<(String, String)>) -> Seq<(Seq<char>, Seq<char>)> {
    v.map_values(|p: (String, String)| (p.0@, p.1@))
}

/// The servers a sample counts, with the name to store for each.
pub fn recordable_servers(snap: &Snapshot) -> (r: Vec<(String, String)>)
    ensures
        pairs_view(r@) == recordable(servers_model(snap.server@)),
{
    let ghost ss = servers_model(snap.server@);
    let mut out: Vec<(String, String)> = Vec::new();
    let mut k: usize = 0;
    assert(ss.take(0) =~= Seq::<ServerModel>::empty());
    while k < snap.server.len()
        invariant
            ss == servers_model(snap.server@),
            k <= snap.server.len(),
            pairs_view(out@) == recordable(ss.take(k as int)),
        decreases snap.server.len() - k,
    {
        let s = &snap.server[k];
        let ghost t = ss.take(k + 1);
        assert(t.drop_last() =~= ss.take(k as int));
        assert(t.last() == s@);
        let active: i64 = (s.numplayers as i64) + (s.numbots as i64);
        if active > 0 {
            let ghost before = out@;
            out.push((s.address.clone(), s.realname.clone()));
            assert(pairs_view(out@) =~= pairs_view(before).push((s.address@, s.realname@)));
        } else {
            assert(recordable(t) =~= recordable(ss.take(k as int)));
        }
        k += 1;
    }
    assert(ss.take(snap.server.len() as int) =~= ss);
    out
}

/// The statement that counts one sample for hour `hour`: it inserts the
/// server with a count of one, or adds one to the hour and takes the new
/// name when the server is already stored.
pub open spec fn spec_upsert_sql(hour: u32) -> Seq<char> {
    let col = int_text(hour as int);
    "INSERT INTO activity (server, name, \""@ + col + "\") VALUES (?1, ?2, 1)\n               ON CONFLICT(server) DO UPDATE SET \""@
        + col + "\" = \""@ + col + "\" + 1, name = excluded.name"@
}

/// The upsert statement for hour `hour`.
pub fn upsert_sql(hour: u32) -> (r: String)
    ensures
        r@ == spec_upsert_sql(hour),
{
    let col = int_chars(hour as i64);
    let mut v: Vec<char> = Vec::new();
    append_str(&mut v, "INSERT INTO activity (server, name, \"");
    crate::text::append_chars(&mut v, &col);
    append_str(&mut v, "\") VALUES (?1, ?2, 1)\n               ON CONFLICT(server) DO UPDATE SET \"");
    crate::text::append_chars(&mut v, &col);
    append_str(&mut v, "\" = \"");
    crate::text::append_chars(&mut v, &col);
    append_str(&mut v, "\" + 1, name = excluded.name");
    string_of(&v)
}

/// The current UTC hour, read from `chrono::Utc::now()` through
/// `chrono::Timelike::hour`, which chrono documents as lying in `0..24`.
/// Which hour it is depends on the clock and is not stated.
#[verifier::external_body]
fn utc_hour() -> (h: u32)
    ensures
        h < 24,
{
    chrono::Timelike::hour(&chrono::Utc::now())
}

/// One sample's work: the upsert statement for the current UTC hour and
/// the (address, name) pairs it is run for.
pub fn activity_sample(snap: &Snapshot) -> (r: (String, Vec<(String, String)>))
    ensures
        exists|h: u32| h < 24 && r.0@ == spec_upsert_sql(h),
        pairs_view(r.1@) == recordable(servers_model(snap.server@)),
{
    let hour = utc_hour();
    let sql = upsert_sql(hour);
    let rows = recordable_servers(snap);
    (sql, rows)
}

} // verus!
