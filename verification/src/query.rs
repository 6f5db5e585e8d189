//! The query side of the protocol: where a master is asked, the address
//! sets that the queries keep, and what a reply does to them.

use vstd::prelude::*;

use crate::protocol::{
    addrs_view, converter_total, parse_getservers_response, parse_status_response, players_from,
    spec_getservers, spec_infostring, status_body, status_info, status_lines, PeerAddr,
    RawStatus, RawStatusModel,
};
use crate::text::{all_digits, chars_of, is_digit, parse_u16, spec_parse_u16, string_of, sub_chars};

verus! {

/// The port a master listens on when its address names none.
pub const MASTER_PORT: u16 = 27950;

/// The index of the last `c` in `s`, or -1.
pub open spec fn last_index(s: Seq<char>, c: char) -> int
    decreases s.len(),
{
    if s.len() == 0 {
        -1
    } else if s.last() == c {
        s.len() - 1
    } else {
        last_index(s.drop_last(), c)
    }
}

/// A master's `host:port` split at the last colon; the port is taken only
/// when all after the colon are digits, and is the master port when it is
/// missing or does not fit.
pub open spec fn spec_split_hostport(s: Seq<char>) -> (Seq<char>, u16) {
    let i = last_index(s, ':');
    if i >= 0 && all_digits(s.skip(i + 1)) {
        (
            s.take(i),
            match spec_parse_u16(s.skip(i + 1)) {
                Some(p) => p,
                None => MASTER_PORT,
            },
        )
    } else {
        (s, MASTER_PORT)
    }
}

proof fn lemma_last_index(s: Seq<char>, c: char, i: int)
    requires
        -1 <= i < s.len(),
        i >= 0 ==> s[i] == c,
        forall|j: int| i < j < s.len() ==> s[j] != c,
    ensures
        last_index(s, c) == i,
    decreases s.len(),
{
    if s.len() > 0 && i < s.len() - 1 {
        assert(s[s.len() - 1] != c);
        assert forall|j: int| i < j < s.drop_last().len() implies s.drop_last()[j] != c by {
            assert(s.drop_last()[j] == s[j]);
        }
        lemma_last_index(s.drop_last(), c, i);
    }
}

/// The host and port a master address names.
pub fn split_hostport(hostport: &str) -> (r: (String, u16))
    ensures
        (r.0@, r.1) == spec_split_hostport(hostport@),
{
    let s = chars_of(hostport);
    let mut k: usize = s.len();
    while k > 0 && s[k - 1] != ':'
        invariant
            k <= s.len(),
            forall|j: int| k <= j < s.len() ==> s@[j] != ':',
        decreases k,
    {
        k -= 1;
    }
    proof {
        lemma_last_index(s@, ':', k - 1);
    }
    if k == 0 {
        return (string_of(&s), MASTER_PORT);
    }
    let port_text = sub_chars(&s, k, s.len());
    assert(port_text@ =~= s@.skip(k as int));
    let mut digits = true;
    let mut j: usize = 0;
    while j < port_text.len()
        invariant
            j <= port_text.len(),
            digits == (forall|m: int| 0 <= m < j ==> is_digit(#[trigger] port_text@[m])),
        decreases port_text.len() - j,
    {
        let ch = port_text[j];
        if !('0' <= ch && ch <= '9') {
            digits = false;
        }
        j += 1;
    }
    if !digits {
        return (string_of(&s), MASTER_PORT);
    }
    let host = sub_chars(&s, 0, k - 1);
    assert(host@ =~= s@.take(k - 1));
    let port = match parse_u16(&port_text) {
        Some(p) => p,
        None => MASTER_PORT,
    };
    (string_of(&host), port)
}

/// Whether two addresses are the same (address bytes and port).
pub fn same_addr(a: &PeerAddr, b: &PeerAddr) -> (r: bool)
    ensures
        r == (a@ == b@),
{
    if a.port != b.port || a.ip.len() != b.ip.len() {
        return false;
    }
    let mut i: usize = 0;
    while i < a.ip.len()
        invariant
            i <= a.ip.len(),
            a.ip.len() == b.ip.len(),
            forall|j: int| 0 <= j < i ==> a.ip@[j] == b.ip@[j],
        decreases a.ip.len() - i,
    {
        if a.ip[i] != b.ip[i] {
            return false;
        }
        i += 1;
    }
    assert(a.ip@ =~= b.ip@);
    true
}

/// The addresses of one family (IPv4 when `v4`), in their order.
pub open spec fn family(s: Seq<(Seq<u8>, u16)>, v4: bool) -> Seq<(Seq<u8>, u16)>
    decreases s.len(),
{
    if s.len() == 0 {
        seq![]
    } else {
        family(s.drop_last(), v4) + if (s.last().0.len() == 4) == v4 {
            seq![s.last()]
        } else {
            seq![]
        }
    }
}

/// The IPv4 and the IPv6 addresses of a list, each in list order.
pub fn split_families(addrs: &[PeerAddr]) -> (r: (Vec<PeerAddr>, Vec<PeerAddr>))
    ensures
        addrs_view(r.0@) == family(addrs_view(addrs@), true),
        addrs_view(r.1@) == family(addrs_view(addrs@), false),
{
    let ghost s = addrs_view(addrs@);
    let mut v4: Vec<PeerAddr> = Vec::new();
    let mut v6: Vec<PeerAddr> = Vec::new();
    let mut k: usize = 0;
    assert(s.take(0) =~= Seq::<(Seq<u8>, u16)>::empty());
    while k < addrs.len()
        invariant
            s == addrs_view(addrs@),
            k <= addrs.len(),
            addrs_view(v4@) == family(s.take(k as int), true),
            addrs_view(v6@) == family(s.take(k as int), false),
        decreases addrs.len() - k,
    {
        let a = &addrs[k];
        let ghost t = s.take(k + 1);
        assert(t.drop_last() =~= s.take(k as int));
        assert(t.last() == a@);
        let ghost b4 = addrs_view(v4@);
        let ghost b6 = addrs_view(v6@);
        if a.is_ipv4() {
            v4.push(a.duplicate());
            assert(addrs_view(v4@) =~= b4.push(a@));
            assert(family(t, false) =~= b6);
        } else {
            v6.push(a.duplicate());
            assert(addrs_view(v6@) =~= b6.push(a@));
            assert(family(t, true) =~= b4);
        }
        k += 1;
    }
    assert(s.take(addrs.len() as int) =~= s);
    (v4, v6)
}

/// A master's addresses in the order they are tried: IPv4 before IPv6,
/// each family in resolver order (a stable sort by "is IPv6").
pub fn v4_first(addrs: &[PeerAddr]) -> (r: Vec<PeerAddr>)
    ensures
        addrs_view(r@) == family(addrs_view(addrs@), true) + family(addrs_view(addrs@), false),
{
    let (mut v4, v6) = split_families(addrs);
    let ghost a = addrs_view(v4@);
    let ghost b = addrs_view(v6@);
    let mut i: usize = 0;
    while i < v6.len()
        invariant
            i <= v6.len(),
            b == addrs_view(v6@),
            addrs_view(v4@) == a + b.take(i as int),
        decreases v6.len() - i,
    {
        let d = v6[i].duplicate();
        let ghost prev = v4@;
        assert(b[i as int] == v6@[i as int]@);
        v4.push(d);
        assert(v4@ == prev.push(d));
        assert(addrs_view(v4@) =~= addrs_view(prev).push(d@));
        assert(a + b.take(i + 1) =~= (a + b.take(i as int)).push(b[i as int]));
        i += 1;
    }
    assert(b.take(v6.len() as int) =~= b);
    v4
}

/// The two families together hold the list's addresses, each as often;
/// the first holds only IPv4 addresses, the second none.
pub proof fn law_families_partition(s: Seq<(Seq<u8>, u16)>)
    ensures
        (family(s, true) + family(s, false)).to_multiset() == s.to_multiset(),
        forall|i: int| 0 <= i < family(s, true).len() ==> (#[trigger] family(s, true)[i]).0.len() == 4,
        forall|i: int| 0 <= i < family(s, false).len() ==> (#[trigger] family(s, false)[i]).0.len() != 4,
    decreases s.len(),
{
    broadcast use vstd::seq_lib::group_to_multiset_ensures;

    if s.len() > 0 {
        let d = s.drop_last();
        let x = s.last();
        law_families_partition(d);
        let a = family(d, true);
        let b = family(d, false);
        vstd::seq_lib::lemma_multiset_commutative(a, b);
        assert(d.push(x) =~= s);
        if x.0.len() == 4 {
            assert(family(s, true) =~= a.push(x));
            assert(family(s, false) =~= b);
            vstd::seq_lib::lemma_multiset_commutative(a.push(x), b);
            assert forall|i: int| 0 <= i < family(s, true).len() implies (#[trigger] family(s, true)[i]).0.len() == 4 by {
                if i < a.len() {
                    assert(family(s, true)[i] == a[i]);
                }
            }
        } else {
            assert(family(s, true) =~= a);
            assert(family(s, false) =~= b.push(x));
            vstd::seq_lib::lemma_multiset_commutative(a, b.push(x));
            assert forall|i: int| 0 <= i < family(s, false).len() implies (#[trigger] family(s, false)[i]).0.len() != 4 by {
                if i < b.len() {
                    assert(family(s, false)[i] == b[i]);
                }
            }
        }
    }
}

/// A set of addresses (in place of a hash set of socket addresses): each
/// address is held once.
pub struct AddrSet {
    items: Vec<PeerAddr>,
}

impl View for AddrSet {
    type V = Set<(Seq<u8>, u16)>;

    closed spec fn view(&self) -> Set<(Seq<u8>, u16)> {
        addrs_view(self.items@).to_set()
    }
}

proof fn lemma_push_to_set(s: Seq<(Seq<u8>, u16)>, x: (Seq<u8>, u16))
    ensures
        s.push(x).to_set() == s.to_set().insert(x),
{
    assert forall|y: (Seq<u8>, u16)| s.push(x).contains(y) <==> s.to_set().insert(x).contains(y) by {
        if s.push(x).contains(y) {
            let j = choose|j: int| 0 <= j < s.push(x).len() && s.push(x)[j] == y;
            if j < s.len() {
                assert(s[j] == y);
            }
        }
        if s.contains(y) {
            let j = choose|j: int| 0 <= j < s.len() && s[j] == y;
            assert(s.push(x)[j] == y);
        }
        if y == x {
            assert(s.push(x)[s.len() as int] == x);
        }
    }
    assert(s.push(x).to_set() =~= s.to_set().insert(x));
}

impl AddrSet {
    #[verifier::type_invariant]
    spec fn distinct(&self) -> bool {
        addrs_view(self.items@).no_duplicates()
    }

    /// The empty set.
    pub fn new() -> (r: AddrSet)
        ensures
            r@ == Set::<(Seq<u8>, u16)>::empty(),
    {
        let r = AddrSet { items: Vec::new() };
        assert(addrs_view(r.items@) =~= Seq::<(Seq<u8>, u16)>::empty());
        assert(r@ =~= Set::<(Seq<u8>, u16)>::empty());
        r
    }

    /// Whether `a` is in the set.
    pub fn contains(&self, a: &PeerAddr) -> (r: bool)
        ensures
            r == self@.contains(a@),
    {
        let ghost v = addrs_view(self.items@);
        let mut i: usize = 0;
        while i < self.items.len()
            invariant
                v == addrs_view(self.items@),
                i <= self.items.len(),
                forall|j: int| 0 <= j < i ==> v[j] != a@,
            decreases self.items.len() - i,
        {
            if same_addr(&self.items[i], a) {
                assert(v[i as int] == a@);
                return true;
            }
            i += 1;
        }
        assert(!v.contains(a@));
        false
    }

    /// Whether the set is empty.
    pub fn is_empty(&self) -> (r: bool)
        ensures
            r == (self@ == Set::<(Seq<u8>, u16)>::empty()),
    {
        if self.items.len() == 0 {
            assert(addrs_view(self.items@) =~= Seq::<(Seq<u8>, u16)>::empty());
            assert(self@ =~= Set::<(Seq<u8>, u16)>::empty());
            true
        } else {
            assert(self@.contains(addrs_view(self.items@)[0]));
            false
        }
    }

    /// The number of addresses in the set.
    pub fn len(&self) -> (r: usize)
        ensures
            r == self@.len(),
    {
        proof {
            use_type_invariant(self);
            addrs_view(self.items@).unique_seq_to_set();
        }
        self.items.len()
    }

    /// Adds `a` (nothing changes when it is in the set already).
    pub fn insert(&mut self, a: PeerAddr)
        ensures
            final(self)@ == old(self)@.insert(a@),
    {
        proof { use_type_invariant(&*self); }
        if self.contains(&a) {
            assert(old(self)@.insert(a@) =~= old(self)@);
            return;
        }
        let mut items: Vec<PeerAddr> = Vec::new();
        std::mem::swap(&mut items, &mut self.items);
        let ghost before = addrs_view(items@);
        let ghost av = a@;
        items.push(a);
        assert(addrs_view(items@) =~= before.push(av));
        proof { lemma_push_to_set(before, av); }
        self.items = items;
    }

    /// Adds every address of `list`.
    pub fn extend(&mut self, list: Vec<PeerAddr>)
        ensures
            final(self)@ == old(self)@.union(addrs_view(list@).to_set()),
    {
        let ghost lv = addrs_view(list@);
        let ghost start = self@;
        let mut rest = list;
        let ghost orig = rest@;
        let mut k: usize = 0;
        let n = rest.len();
        assert(orig.skip(0) =~= orig);
        assert(lv.take(0).to_set() =~= Set::<(Seq<u8>, u16)>::empty());
        assert(start.union(Set::<(Seq<u8>, u16)>::empty()) =~= start);
        while k < n
            invariant
                n == orig.len(),
                lv == addrs_view(orig),
                k <= n,
                rest@ == orig.skip(k as int),
                self@ == start.union(lv.take(k as int).to_set()),
            decreases n - k,
        {
            let a = rest.remove(0);
            assert(a == orig[k as int]);
            assert(rest@ =~= orig.skip(k + 1));
            assert(lv.take(k + 1) =~= lv.take(k as int).push(a@));
            proof { lemma_push_to_set(lv.take(k as int), a@); }
            self.insert(a);
            assert(self@ =~= start.union(lv.take(k + 1).to_set()));
            k += 1;
        }
        assert(lv.take(n as int) =~= lv);
    }

    /// Takes `a` out of the set (nothing changes when it is not in it).
    pub fn remove(&mut self, a: &PeerAddr)
        ensures
            final(self)@ == old(self)@.remove(a@),
    {
        proof { use_type_invariant(&*self); }
        let mut items: Vec<PeerAddr> = Vec::new();
        std::mem::swap(&mut items, &mut self.items);
        let ghost v = addrs_view(items@);
        let mut i: usize = 0;
        loop
            invariant
                v == addrs_view(items@),
                v.no_duplicates(),
                i <= items.len(),
                forall|j: int| 0 <= j < i ==> v[j] != a@,
            ensures
                v == addrs_view(items@),
                v.no_duplicates(),
                i <= items.len(),
                forall|j: int| 0 <= j < i ==> v[j] != a@,
                i < items.len() ==> v[i as int] == a@,
            decreases items.len() - i,
        {
            if i == items.len() {
                break;
            }
            if same_addr(&items[i], a) {
                break;
            }
            i += 1;
        }
        if i < items.len() {
            let _gone = items.remove(i);
            let ghost w = addrs_view(items@);
            assert(w =~= v.remove(i as int));
            assert forall|p: int, q: int| 0 <= p < w.len() && 0 <= q < w.len() && p != q implies w[p] != w[q] by {
                let p2 = if p < i { p } else { p + 1 };
                let q2 = if q < i { q } else { q + 1 };
                assert(w[p] == v[p2]);
                assert(w[q] == v[q2]);
            }
            assert forall|y: (Seq<u8>, u16)| #[trigger] w.to_set().contains(y) <==> v.to_set().remove(a@).contains(y) by {
                if w.contains(y) {
                    let j = choose|j: int| 0 <= j < w.len() && w[j] == y;
                    let j2 = if j < i { j } else { j + 1 };
                    assert(v[j2] == y);
                    assert(j2 != i);
                }
                if v.contains(y) && y != a@ {
                    let j = choose|j: int| 0 <= j < v.len() && v[j] == y;
                    assert(j != i);
                    if j < i {
                        assert(w[j] == y);
                    } else {
                        assert(w[j - 1] == y);
                    }
                }
            }
            assert(w.to_set() =~= v.to_set().remove(a@));
        } else {
            assert(!v.contains(a@));
            assert(v.to_set().remove(a@) =~= v.to_set());
        }
        self.items = items;
    }

    /// The set's addresses, each once, in no particular order.
    pub fn to_vec(&self) -> (r: Vec<PeerAddr>)
        ensures
            addrs_view(r@).to_set() == self@,
            addrs_view(r@).no_duplicates(),
    {
        proof { use_type_invariant(self); }
        let mut out: Vec<PeerAddr> = Vec::new();
        let mut i: usize = 0;
        while i < self.items.len()
            invariant
                i <= self.items.len(),
                addrs_view(out@) == addrs_view(self.items@).take(i as int),
            decreases self.items.len() - i,
        {
            let d = self.items[i].duplicate();
            let ghost prev = out@;
            out.push(d);
            assert(out@ == prev.push(d));
            assert(addrs_view(out@) =~= addrs_view(prev).push(d@));
            assert(addrs_view(self.items@).take(i + 1) =~= addrs_view(self.items@).take(i as int).push(
                self.items@[i as int]@,
            ));
            i += 1;
        }
        assert(addrs_view(self.items@).take(self.items.len() as int) =~= addrs_view(self.items@));
        out
    }
}

/// `st` is what a status reply with body `body` from `address` reads as.
pub open spec fn status_read<F: Fn(Vec<u8>) -> Option<i32>>(
    centi: F,
    address: (Seq<u8>, u16),
    body: Seq<u8>,
    st: RawStatusModel,
) -> bool {
    &&& st.address == address
    &&& st.rules == spec_infostring(status_info(body))
    &&& players_from(centi, status_lines(body), st.players)
}

/// Whether another round of status requests goes out after `done` rounds:
/// a query runs `retries` rounds, at least one, and stops early once no
/// address is awaited any more (`awaited` of them are).
pub fn another_round(done: u32, retries: u32, awaited: usize) -> (r: bool)
    ensures
        r == (awaited > 0 && done < (if retries == 0 { 1 } else { retries })),
{
    let rounds: u32 = if retries == 0 {
        1
    } else {
        retries
    };
    awaited > 0 && done < rounds
}

/// A packet from `src` while statuses are awaited: a status reply from an
/// address still awaited is kept and the address is no longer awaited;
/// anything else changes nothing.
pub fn accept_status<F: Fn(Vec<u8>) -> Option<i32>>(
    packet: &[u8],
    src: &PeerAddr,
    pending: &mut AddrSet,
    out: &mut Vec<RawStatus>,
    centi: &F,
)
    requires
        converter_total(*centi),
    ensures
        (old(pending)@.contains(src@) && status_body(packet@) is Some) ==> {
            &&& final(pending)@ == old(pending)@.remove(src@)
            &&& final(out)@.len() == old(out)@.len() + 1
            &&& final(out)@.take(old(out)@.len() as int) == old(out)@
            &&& status_read(*centi, src@, status_body(packet@)->Some_0, final(out)@.last()@)
        },
        !(old(pending)@.contains(src@) && status_body(packet@) is Some) ==> {
            &&& final(pending)@ == old(pending)@
            &&& final(out)@ == old(out)@
        },
{
    if !pending.contains(src) {
        return;
    }
    match parse_status_response(src.duplicate(), packet, centi) {
        Some(st) => {
            pending.remove(src);
            let ghost before = out@;
            out.push(st);
            assert(out@.take(before.len() as int) =~= before);
        },
        None => {},
    }
}

/// What the reply packets of one master have given so far.
pub struct MasterReply {
    pub servers: Vec<PeerAddr>,
    pub got_packet: bool,
}

impl MasterReply {
    /// Nothing received yet.
    pub fn new() -> (r: MasterReply)
        ensures
            r.servers@.len() == 0,
            !r.got_packet,
    {
        MasterReply { servers: Vec::new(), got_packet: false }
    }

    /// Takes in one reply packet: its servers are added in order; the
    /// result says whether it ended the list.
    pub fn on_packet(&mut self, buf: &[u8]) -> (eot: bool)
        ensures
            final(self).got_packet,
            addrs_view(final(self).servers@) == addrs_view(old(self).servers@) + spec_getservers(buf@).0,
            eot == spec_getservers(buf@).1,
    {
        self.got_packet = true;
        let (found, eot) = parse_getservers_response(buf);
        let ghost start = addrs_view(self.servers@);
        let ghost fv = addrs_view(found@);
        let mut i: usize = 0;
        while i < found.len()
            invariant
                self.got_packet,
                i <= found.len(),
                fv == addrs_view(found@),
                addrs_view(self.servers@) == start + fv.take(i as int),
            decreases found.len() - i,
        {
            let d = found[i].duplicate();
            let ghost prev = self.servers@;
            assert(fv[i as int] == found@[i as int]@);
            self.servers.push(d);
            assert(self.servers@ == prev.push(d));
            assert(addrs_view(self.servers@) =~= addrs_view(prev).push(d@));
            assert(start + fv.take(i + 1) =~= (start + fv.take(i as int)).push(fv[i as int]));
            i += 1;
        }
        assert(fv.take(found.len() as int) =~= fv);
        eot
    }

    /// The servers, or nothing when no packet came at all.
    pub fn finish(self) -> (r: Option<Vec<PeerAddr>>)
        ensures
            self.got_packet ==> (r matches Some(v) && addrs_view(v@) == addrs_view(self.servers@)),
            !self.got_packet ==> r is None,
    {
        if self.got_packet {
            Some(self.servers)
        } else {
            None
        }
    }
}

} // verus!
