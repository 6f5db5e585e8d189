//! Request-side decisions of the site: content types of static files and
//! the servers a `/servers` request asks for.

use vstd::prelude::*;

use crate::model::{is_text, servers_model, ServerModel, Snapshot};
use crate::text::{append_chars, chars_of, int_text, split_chars, split_on, string_of, sub_chars};
use crate::view::{server_view, server_viewable, server_views_model, spec_server_view, view_defined, ServerView};

verus! {

/// The query parameters the pages read: `rjz` (alternative style),
/// `pretty` (indented JSON) and the `s` server addresses.
#[derive(Debug)]
pub struct CommonQuery {
    pub rjz: Option<String>,
    pub pretty: Option<String>,
    pub s: Vec<String>,
}

/// The extension of a path: the text after its last `.` (the whole path
/// when there is none).
pub open spec fn extension(path: Seq<char>) -> Seq<char> {
    split_on(path, '.').last()
}

/// The content type served for a static file.
pub open spec fn spec_content_type(path: Seq<char>) -> Seq<char> {
    let e = extension(path);
    if e == "css"@ {
        "text/css; charset=utf-8"@
    } else if e == "js"@ {
        "text/javascript; charset=utf-8"@
    } else if e == "json"@ {
        "application/json"@
    } else if e == "png"@ {
        "image/png"@
    } else if e == "svg"@ {
        "image/svg+xml"@
    } else if e == "txt"@ {
        "text/plain; charset=utf-8"@
    } else if e == "html"@ {
        "text/html; charset=utf-8"@
    } else if e == "woff"@ {
        "font/woff"@
    } else if e == "woff2"@ {
        "font/woff2"@
    } else if e == "ttf"@ {
        "font/ttf"@
    } else if e == "eot"@ {
        "application/vnd.ms-fontobject"@
    } else if e == "ico"@ {
        "image/x-icon"@
    } else {
        "application/octet-stream"@
    }
}

/// The content type served for a static file, by its extension.
pub fn content_type(path: &str) -> (r: &'static str)
    ensures
        r@ == spec_content_type(path@),
{
    let c = chars_of(path);
    let parts = split_chars(&c, '.');
    proof { crate::text::lemma_split_on_nonempty(c@, '.'); }
    let last = &parts[parts.len() - 1];
    assert(last@ == extension(path@));
    let e = string_of(last);
    let e = e.as_str();
    if is_text(e, "css") {
        "text/css; charset=utf-8"
    } else if is_text(e, "js") {
        "text/javascript; charset=utf-8"
    } else if is_text(e, "json") {
        "application/json"
    } else if is_text(e, "png") {
        "image/png"
    } else if is_text(e, "svg") {
        "image/svg+xml"
    } else if is_text(e, "txt") {
        "text/plain; charset=utf-8"
    } else if is_text(e, "html") {
        "text/html; charset=utf-8"
    } else if is_text(e, "woff") {
        "font/woff"
    } else if is_text(e, "woff2") {
        "font/woff2"
    } else if is_text(e, "ttf") {
        "font/ttf"
    } else if is_text(e, "eot") {
        "application/vnd.ms-fontobject"
    } else if is_text(e, "ico") {
        "image/x-icon"
    } else {
        "application/octet-stream"
    }
}

pub open spec fn addr_texts(v: Seq<String>) -> Seq<Seq<char>> {
    v.map_values(|s: String| s@)
}

/// The snapshot's servers (in address order) whose address was asked for.
pub open spec fn wanted_servers(ss: Seq<ServerModel>, want: Seq<Seq<char>>) -> Seq<ServerModel>
    decreases ss.len(),
{
    if ss.len() == 0 {
        seq![]
    } else {
        wanted_servers(ss.drop_last(), want) + if want.contains(ss.last().address) {
            seq![ss.last()]
        } else {
            seq![]
        }
    }
}

/// The `/servers` page shows only servers of the snapshot, and only those
/// asked for.
pub proof fn law_wanted_servers(ss: Seq<ServerModel>, want: Seq<Seq<char>>)
    ensures
        forall|j: int|
            0 <= j < wanted_servers(ss, want).len() ==> ss.contains(
                #[trigger] wanted_servers(ss, want)[j],
            ) && want.contains(wanted_servers(ss, want)[j].address),
    decreases ss.len(),
{
    if ss.len() > 0 {
        let d = ss.drop_last();
        law_wanted_servers(d, want);
        let w = wanted_servers(ss, want);
        assert forall|j: int| 0 <= j < w.len() implies ss.contains(#[trigger] w[j]) && want.contains(w[j].address) by {
            let wd = wanted_servers(d, want);
            if j < wd.len() {
                assert(w[j] == wd[j]);
                let k = choose|k: int| 0 <= k < d.len() && d[k] == wd[j];
                assert(ss[k] == d[k]);
            } else {
                assert(w[j] == ss.last());
                assert(ss[ss.len() - 1] == ss.last());
            }
        }
    }
}

/// The rows of the servers a `/servers?s=...` request asks for.
pub fn servers_page_views(snap: &Snapshot, want: &[String]) -> (r: Vec<ServerView>)
    requires
        wanted_viewable(servers_model(snap.server@), addr_texts(want@)),
    ensures
        server_views_model(r@) == wanted_servers(servers_model(snap.server@), addr_texts(want@)).map_values(
            |s: ServerModel| spec_server_view(s),
        ),
{
    let ghost ss = servers_model(snap.server@);
    let ghost w = addr_texts(want@);
    let mut out: Vec<ServerView> = Vec::new();
    let mut k: usize = 0;
    assert(ss.take(0) =~= Seq::<ServerModel>::empty());
    while k < snap.server.len()
        invariant
            ss == servers_model(snap.server@),
            w == addr_texts(want@),
            wanted_viewable(ss, w),
            k <= snap.server.len(),
            server_views_model(out@) == wanted_servers(ss.take(k as int), w).map_values(
                |s: ServerModel| spec_server_view(s),
            ),
        decreases snap.server.len() - k,
    {
        let s = &snap.server[k];
        let ghost t = ss.take(k + 1);
        assert(t.drop_last() =~= ss.take(k as int));
        assert(t.last() == s@);
        let mut found = false;
        let mut j: usize = 0;
        while j < want.len()
            invariant
                j <= want.len(),
                w == addr_texts(want@),
                found == (exists|i: int| 0 <= i < j && #[trigger] w[i] == s.address@),
            decreases want.len() - j,
        {
            if want[j] == s.address {
                assert(w[j as int] == s.address@);
                found = true;
            }
            j += 1;
        }
        let ghost before = server_views_model(out@);
        if found {
            assert(w.contains(s.address@));
            assert(ss[k as int] == s@);
            assert(w.contains(ss[k as int].address));
            let v = server_view(s);
            let ghost vm = v@;
            let ghost old_out = out@;
            out.push(v);
            assert(out@ == old_out.push(v));
            assert(server_views_model(out@) =~= before.push(vm));
            assert(wanted_servers(t, w) =~= wanted_servers(ss.take(k as int), w).push(s@));
            assert(wanted_servers(t, w).map_values(|s: ServerModel| spec_server_view(s))
                =~= wanted_servers(ss.take(k as int), w).map_values(
                |s: ServerModel| spec_server_view(s),
            ).push(vm));
            assert(server_views_model(out@) =~= wanted_servers(t, w).map_values(
                |s: ServerModel| spec_server_view(s),
            ));
        } else {
            assert(!w.contains(s.address@));
            assert(wanted_servers(t, w) =~= wanted_servers(ss.take(k as int), w));
        }
        k += 1;
    }
    assert(ss.take(snap.server.len() as int) =~= ss);
    out
}

/// The mark in a cached front page that each response replaces with the
/// snapshot's age in seconds.
pub const AGE_TOKEN: &'static str = "@XONLIST_AGE@";

/// Whether `t` occurs in `s` at `i`.
pub open spec fn occurs_at(s: Seq<char>, t: Seq<char>, i: int) -> bool {
    0 <= i && i + t.len() <= s.len() && s.subrange(i, i + t.len()) == t
}

/// The first index from `i` on where `t` occurs in `s`, or -1.
pub open spec fn find_from(s: Seq<char>, t: Seq<char>, i: int) -> int
    decreases s.len() - i,
{
    if i < 0 || i + t.len() > s.len() {
        -1
    } else if occurs_at(s, t, i) {
        i
    } else if i >= s.len() {
        -1
    } else {
        find_from(s, t, i + 1)
    }
}

/// `page` with its first `AGE_TOKEN` replaced by `age` in decimal
/// (`str::replacen` with a count of one).
pub open spec fn spec_fill_age(page: Seq<char>, token: Seq<char>, age: u64) -> Seq<char> {
    let i = find_from(page, token, 0);
    if i < 0 {
        page
    } else {
        page.take(i) + int_text(age as int) + page.skip(i + token.len())
    }
}

/// The cached page with the snapshot's age filled in.
pub fn fill_age(page: &str, age: u64) -> (r: String)
    ensures
        r@ == spec_fill_age(page@, AGE_TOKEN@, age),
{
    let p = chars_of(page);
    let t = chars_of(AGE_TOKEN);
    let mut i: usize = 0;
    let mut found = false;
    while !found && t.len() <= p.len() - i
        invariant
            p@ == page@,
            t@ == AGE_TOKEN@,
            i <= p.len(),
            !found ==> find_from(p@, t@, 0) == find_from(p@, t@, i as int),
            found ==> find_from(p@, t@, 0) == i && i + t.len() <= p.len(),
        decreases p.len() - i + if found { 0int } else { 1int },
    {
        let mut j: usize = 0;
        while j < t.len() && p[i + j] == t[j]
            invariant
                i + t.len() <= p.len(),
                j <= t.len(),
                forall|m: int| 0 <= m < j ==> p@[i + m] == t@[m],
            decreases t.len() - j,
        {
            j += 1;
        }
        if j == t.len() {
            assert(p@.subrange(i as int, i + t.len()) =~= t@);
            found = true;
        } else {
            assert(!occurs_at(p@, t@, i as int)) by {
                if p@.subrange(i as int, i + t.len()) == t@ {
                    assert(p@[i + j] == p@.subrange(i as int, i + t.len())[j as int]);
                }
            }
            i += 1;
        }
    }
    if !found {
        assert(find_from(p@, t@, i as int) == -1);
        return string_of(&p);
    }
    let mut v = sub_chars(&p, 0, i);
    append_chars(&mut v, &crate::text::nat_chars(age));
    let tail = sub_chars(&p, i + t.len(), p.len());
    append_chars(&mut v, &tail);
    assert(v@ =~= spec_fill_age(page@, AGE_TOKEN@, age));
    string_of(&v)
}

/// The asset path a request path asks for: the path without its leading
/// slashes, or nothing when that is empty.
pub open spec fn spec_asset_path(path: Seq<char>) -> Option<Seq<char>> {
    let rest = path.skip(leading_slashes(path));
    if rest.len() == 0 {
        None
    } else {
        Some(rest)
    }
}

/// The number of `/` at the start of `s`.
pub open spec fn leading_slashes(s: Seq<char>) -> int
    decreases s.len(),
{
    if s.len() == 0 || s[0] != '/' {
        0
    } else {
        1 + leading_slashes(s.drop_first())
    }
}

proof fn lemma_leading_slashes(s: Seq<char>, i: int)
    requires
        0 <= i <= s.len(),
        forall|j: int| 0 <= j < i ==> s[j] == '/',
        i == s.len() || s[i] != '/',
    ensures
        leading_slashes(s) == i,
    decreases i,
{
    if i > 0 {
        assert forall|j: int| 0 <= j < i - 1 implies s.drop_first()[j] == '/' by {
            assert(s.drop_first()[j] == s[j + 1]);
        }
        if i < s.len() {
            assert(s.drop_first()[i - 1] == s[i]);
        }
        lemma_leading_slashes(s.drop_first(), i - 1);
    }
}

/// The static file a request path names, if any.
pub fn asset_path(path: &str) -> (r: Option<String>)
    ensures
        match r {
            Some(p) => spec_asset_path(path@) == Some(p@),
            None => spec_asset_path(path@) is None,
        },
{
    let c = chars_of(path);
    let mut i: usize = 0;
    while i < c.len() && c[i] == '/'
        invariant
            i <= c.len(),
            forall|j: int| 0 <= j < i ==> c@[j] == '/',
        decreases c.len() - i,
    {
        i += 1;
    }
    proof { lemma_leading_slashes(c@, i as int); }
    if i == c.len() {
        assert(c@.skip(i as int).len() == 0);
        return None;
    }
    let rest = sub_chars(&c, i, c.len());
    assert(rest@ =~= path@.skip(i as int));
    Some(string_of(&rest))
}

/// The first of the snapshot's servers with address `addr`.
pub open spec fn server_at(ss: Seq<ServerModel>, addr: Seq<char>) -> Option<ServerModel>
    decreases ss.len(),
{
    if ss.len() == 0 {
        None
    } else if ss[0].address == addr {
        Some(ss[0])
    } else {
        server_at(ss.drop_first(), addr)
    }
}

/// The row of a `/server/<address>` page: the server with that address,
/// or none.
pub fn server_page_views(snap: &Snapshot, addr: &str) -> (r: Vec<ServerView>)
    requires
        found_viewable(servers_model(snap.server@), addr@),
    ensures
        server_views_model(r@) == match server_at(servers_model(snap.server@), addr@) {
            Some(s) => seq![spec_server_view(s)],
            None => Seq::<crate::view::ServerViewModel>::empty(),
        },
{
    let ghost ss = servers_model(snap.server@);
    let mut out: Vec<ServerView> = Vec::new();
    let mut k: usize = 0;
    assert(ss.skip(0) =~= ss);
    while k < snap.server.len()
        invariant
            ss == servers_model(snap.server@),
            found_viewable(ss, addr@),
            k <= snap.server.len(),
            server_at(ss, addr@) == server_at(ss.skip(k as int), addr@),
            out@.len() == 0,
        decreases snap.server.len() - k,
    {
        let s = &snap.server[k];
        assert(ss.skip(k as int)[0] == s@);
        assert(ss.skip(k as int).drop_first() =~= ss.skip(k + 1));
        if is_text(s.address.as_str(), addr) {
            let v = server_view(s);
            let ghost vm = v@;
            out.push(v);
            assert(server_views_model(out@) =~= seq![vm]);
            return out;
        }
        k += 1;
    }
    assert(ss.skip(k as int).len() == 0);
    assert(server_views_model(out@) =~= Seq::<crate::view::ServerViewModel>::empty());
    out
}

/// Every server a `/servers` request asks for can be shown.
pub open spec fn wanted_viewable(ss: Seq<ServerModel>, want: Seq<Seq<char>>) -> bool {
    forall|i: int| 0 <= i < ss.len() && want.contains(#[trigger] ss[i].address) ==> view_defined(ss[i])
}

/// Whether every server a `/servers` request asks for can be shown.
pub fn servers_page_ok(snap: &Snapshot, want: &[String]) -> (r: bool)
    ensures
        r == wanted_viewable(servers_model(snap.server@), addr_texts(want@)),
{
    let ghost ss = servers_model(snap.server@);
    let ghost w = addr_texts(want@);
    let mut k: usize = 0;
    while k < snap.server.len()
        invariant
            ss == servers_model(snap.server@),
            w == addr_texts(want@),
            k <= snap.server.len(),
            forall|i: int| 0 <= i < k && w.contains(#[trigger] ss[i].address) ==> view_defined(ss[i]),
        decreases snap.server.len() - k,
    {
        let s = &snap.server[k];
        assert(ss[k as int] == s@);
        let mut found = false;
        let mut j: usize = 0;
        while j < want.len()
            invariant
                j <= want.len(),
                w == addr_texts(want@),
                found == (exists|i: int| 0 <= i < j && #[trigger] w[i] == s.address@),
            decreases want.len() - j,
        {
            if want[j] == s.address {
                assert(w[j as int] == s.address@);
                found = true;
            }
            j += 1;
        }
        if found && !server_viewable(s) {
            assert(w.contains(ss[k as int].address));
            return false;
        }
        k += 1;
    }
    true
}

/// The server a `/server/<address>` page shows, if any, can be shown.
pub open spec fn found_viewable(ss: Seq<ServerModel>, addr: Seq<char>) -> bool {
    server_at(ss, addr) matches Some(s) ==> view_defined(s)
}

/// Whether the server a `/server/<address>` page shows can be shown.
pub fn server_page_ok(snap: &Snapshot, addr: &str) -> (r: bool)
    ensures
        r == found_viewable(servers_model(snap.server@), addr@),
{
    let ghost ss = servers_model(snap.server@);
    let mut k: usize = 0;
    assert(ss.skip(0) =~= ss);
    while k < snap.server.len()
        invariant
            ss == servers_model(snap.server@),
            k <= snap.server.len(),
            server_at(ss, addr@) == server_at(ss.skip(k as int), addr@),
        decreases snap.server.len() - k,
    {
        let s = &snap.server[k];
        assert(ss.skip(k as int)[0] == s@);
        assert(ss.skip(k as int).drop_first() =~= ss.skip(k + 1));
        if is_text(s.address.as_str(), addr) {
            return server_viewable(s);
        }
        k += 1;
    }
    assert(ss.skip(k as int).len() == 0);
    true
}

} // verus!
