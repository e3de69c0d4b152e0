//! One capture cycle: the IPv4 and IPv6 tables merged into one view per
//! local port, stamped with one timestamp for the whole cycle.
use std::collections::HashSet;
use vstd::prelude::*;
use crate::codec::IpAddress;
use crate::table::{PortMap, grouped, scan_source, table_view};

verus! {

/// The distinct remote addresses seen on one local port in one cycle.
pub struct PortObservation {
    pub port: u16,
    pub addresses: Vec<IpAddress>,
    pub count: usize,
}

/// What one capture cycle saw: the host, the one timestamp of the cycle,
/// and an observation for each local port on which a connection was seen.
pub struct Snapshot {
    pub host: String,
    pub timestamp: String,
    pub observations: Vec<PortObservation>,
}

/// One observation of a snapshot with the host and timestamp it was taken
/// under, as it is delivered.
pub struct ConnectionRecord {
    pub host: String,
    pub port: u16,
    pub unique_ips: Vec<IpAddress>,
    pub count: usize,
    pub timestamp: String,
}

/// The per-port union of two groupings: a port seen in either has the
/// addresses seen in both.
pub open spec fn merged(a: Map<u16, Set<IpAddress>>, b: Map<u16, Set<IpAddress>>) -> Map<
    u16,
    Set<IpAddress>,
> {
    Map::new(
        |p: u16| a.contains_key(p) || b.contains_key(p),
        |p: u16|
            (if a.contains_key(p) {
                a[p]
            } else {
                Set::empty()
            }).union(
                if b.contains_key(p) {
                    b[p]
                } else {
                    Set::empty()
                },
            ),
    )
}

/// What a table that may not have been readable lists, by port.
pub open spec fn source_view(source: Option<Seq<char>>, ports: Set<u16>, is_ipv6: bool) -> Map<
    u16,
    Set<IpAddress>,
> {
    match source {
        Some(text) => table_view(text, ports, is_ipv6),
        None => Map::empty(),
    }
}

/// What one cycle reports from the two tables, by port.
pub open spec fn cycle_view(
    tcp4: Option<Seq<char>>,
    tcp6: Option<Seq<char>>,
    ports: Set<u16>,
) -> Map<u16, Set<IpAddress>> {
    merged(source_view(tcp4, ports, false), source_view(tcp6, ports, true))
}

/// The characters of a text that may be missing.
pub open spec fn opt_view(s: Option<&str>) -> Option<Seq<char>> {
    match s {
        Some(t) => Some(t@),
        None => None,
    }
}

impl PortObservation {
    /// The addresses are distinct, at least one, and counted.
    pub open spec fn wf(&self) -> bool {
        &&& self.addresses@.no_duplicates()
        &&& self.addresses@.len() > 0
        &&& self.count == self.addresses@.len()
    }
}

impl Snapshot {
    /// Each port is observed once, each observation lists distinct
    /// addresses, at least one, and counts them.
    pub open spec fn wf(&self) -> bool {
        &&& forall|i: int| 0 <= i < self.observations@.len() ==> #[trigger] self.observations@[i].wf()
        &&& forall|i: int, j: int|
            0 <= i < j < self.observations@.len() ==> #[trigger] self.observations@[i].port
                != #[trigger] self.observations@[j].port
    }

    /// The addresses observed on each port.
    pub open spec fn content(&self) -> Map<u16, Set<IpAddress>> {
        Map::new(
            |p: u16| exists|i: int| 0 <= i < self.observations@.len() && #[trigger] self.observations@[i].port == p,
            |p: u16|
                self.observations@[choose|i: int|
                    0 <= i < self.observations@.len() && #[trigger] self.observations@[i].port
                        == p].addresses@.to_set(),
        )
    }

    /// The observations as records that each carry the host and the
    /// snapshot's one timestamp, in the order of the observations.
    pub fn records(&self) -> (r: Vec<ConnectionRecord>)
        ensures
            r@.len() == self.observations@.len(),
            forall|i: int|
                0 <= i < r@.len() ==> {
                    &&& (#[trigger] r@[i]).host@ == self.host@
                    &&& r@[i].timestamp@ == self.timestamp@
                    &&& r@[i].port == self.observations@[i].port
                    &&& r@[i].unique_ips@ == self.observations@[i].addresses@
                    &&& r@[i].count == self.observations@[i].count
                },
    {
        let mut r: Vec<ConnectionRecord> = Vec::new();
        let mut i: usize = 0;
        while i < self.observations.len()
            invariant
                i <= self.observations@.len(),
                r@.len() == i,
                forall|k: int|
                    0 <= k < i ==> {
                        &&& (#[trigger] r@[k]).host@ == self.host@
                        &&& r@[k].timestamp@ == self.timestamp@
                        &&& r@[k].port == self.observations@[k].port
                        &&& r@[k].unique_ips@ == self.observations@[k].addresses@
                        &&& r@[k].count == self.observations@[k].count
                    },
            decreases self.observations@.len() - i,
        {
            let o = &self.observations[i];
            let record = ConnectionRecord {
                host: self.host.clone(),
                port: o.port,
                unique_ips: copy_addresses(&o.addresses),
                count: o.count,
                timestamp: self.timestamp.clone(),
            };
            r.push(record);
            i = i + 1;
        }
        r
    }
}

fn copy_addresses(v: &Vec<IpAddress>) -> (r: Vec<IpAddress>)
    ensures
        r@ == v@,
{
    let mut r: Vec<IpAddress> = Vec::new();
    let mut i: usize = 0;
    while i < v.len()
        invariant
            i <= v.len(),
            r@ == v@.take(i as int),
        decreases v.len() - i,
    {
        r.push(v[i]);
        i = i + 1;
    }
    assert(v@.take(i as int) == v@);
    r
}

/// Grouping the entries of two collections together is merging their
/// groupings port by port: a port seen in both gets one set, the union.
pub proof fn lemma_grouped_union(a: Set<(u16, IpAddress)>, b: Set<(u16, IpAddress)>)
    ensures
        grouped(a.union(b)) == merged(grouped(a), grouped(b)),
{
    let g = grouped(a.union(b));
    let m = merged(grouped(a), grouped(b));
    assert forall|p: u16| g.contains_key(p) <==> m.contains_key(p) by {
        if g.contains_key(p) {
            let x = choose|x: IpAddress| a.union(b).contains((p, x));
            if a.contains((p, x)) {
                assert(grouped(a).contains_key(p));
            } else {
                assert(grouped(b).contains_key(p));
            }
        }
        if grouped(a).contains_key(p) {
            let x = choose|x: IpAddress| a.contains((p, x));
            assert(a.union(b).contains((p, x)));
        }
        if grouped(b).contains_key(p) {
            let x = choose|x: IpAddress| b.contains((p, x));
            assert(a.union(b).contains((p, x)));
        }
    }
    assert forall|p: u16| #[trigger] g.contains_key(p) implies g[p] == m[p] by {
        assert(g[p] =~= m[p]);
    }
    assert(g =~= m);
}

/// Merges the IPv4 and IPv6 results of one cycle into one observation per
/// port and stamps the snapshot with the cycle's one timestamp.
pub fn aggregate(tcp4: &PortMap, tcp6: &PortMap, host: String, timestamp: String) -> (r: Snapshot)
    requires
        tcp4.wf(),
        tcp6.wf(),
    ensures
        r.wf(),
        r.host == host,
        r.timestamp == timestamp,
        r.content() == merged(tcp4@, tcp6@),
{
    let all = tcp4.union(tcp6);
    proof {
        lemma_grouped_union(tcp4.pairs(), tcp6.pairs());
    }
    let ports = all.ports();
    let mut obs: Vec<PortObservation> = Vec::new();
    let mut i: usize = 0;
    while i < ports.len()
        invariant
            i <= ports@.len(),
            all.wf(),
            ports@.no_duplicates(),
            ports@.to_set() == all@.dom(),
            obs@.len() == i,
            forall|k: int|
                0 <= k < i ==> {
                    &&& (#[trigger] obs@[k]).port == ports@[k]
                    &&& obs@[k].wf()
                    &&& obs@[k].addresses@.to_set() == all@[ports@[k]]
                },
        decreases ports@.len() - i,
    {
        let p = ports[i];
        let addresses = all.addresses(p);
        assert(ports@.to_set().contains(p));
        proof {
            let x = choose|x: IpAddress| all.pairs().contains((p, x));
            assert(all@[p].contains(x));
            assert(addresses@.to_set().contains(x));
        }
        let count = addresses.len();
        obs.push(PortObservation { port: p, addresses, count });
        i = i + 1;
    }
    let r = Snapshot { host, timestamp, observations: obs };
    assert forall|a: int, b: int| 0 <= a < b < r.observations@.len() implies #[trigger] r.observations@[a].port
        != #[trigger] r.observations@[b].port by {
        assert(ports@[a] != ports@[b]);
    }
    assert forall|p: u16| r.content().contains_key(p) <==> all@.contains_key(p) by {
        if all@.contains_key(p) {
            assert(ports@.to_set().contains(p));
            let k = choose|k: int| 0 <= k < ports@.len() && ports@[k] == p;
            assert(r.observations@[k].port == p);
        }
        if r.content().contains_key(p) {
            let k = choose|k: int| 0 <= k < r.observations@.len() && #[trigger] r.observations@[k].port == p;
            assert(ports@.contains(p));
        }
    }
    assert forall|p: u16| #[trigger] r.content().contains_key(p) implies r.content()[p] == all@[p] by {
        let k = choose|k: int| 0 <= k < r.observations@.len() && #[trigger] r.observations@[k].port == p;
        assert(r.observations@[k].addresses@.to_set() == all@[ports@[k]]);
    }
    assert(r.content() =~= all@);
    r
}

/// One capture cycle from the text of the two tables, either of which may
/// not have been readable (`None`): an unreadable table contributes
/// nothing and the other's connections are still reported.
pub fn capture(
    tcp4: Option<&str>,
    tcp6: Option<&str>,
    ports: &HashSet<u16>,
    host: String,
    timestamp: String,
) -> (r: Snapshot)
    ensures
        r.wf(),
        r.host == host,
        r.timestamp == timestamp,
        r.content() == cycle_view(opt_view(tcp4), opt_view(tcp6), ports@),
{
    let m4 = scan_source(tcp4, ports, false);
    let m6 = scan_source(tcp6, ports, true);
    assert(m4@ == source_view(opt_view(tcp4), ports@, false));
    assert(m6@ == source_view(opt_view(tcp6), ports@, true));
    aggregate(&m4, &m6, host, timestamp)
}

/// A cycle in which one table could not be read reports exactly what the
/// other table lists.
pub proof fn lemma_unreadable_table(tcp: Option<Seq<char>>, ports: Set<u16>)
    ensures
        cycle_view(tcp, None, ports) == source_view(tcp, ports, false),
        cycle_view(None, tcp, ports) == source_view(tcp, ports, true),
{
    let v4 = source_view(tcp, ports, false);
    let v6 = source_view(tcp, ports, true);
    assert forall|p: u16| #[trigger] v4.contains_key(p) implies cycle_view(tcp, None, ports)[p] == v4[p] by {
        assert(v4[p].union(Set::empty()) =~= v4[p]);
    }
    assert(cycle_view(tcp, None, ports) =~= v4);
    assert forall|p: u16| #[trigger] v6.contains_key(p) implies cycle_view(None, tcp, ports)[p] == v6[p] by {
        assert(Set::<IpAddress>::empty().union(v6[p]) =~= v6[p]);
    }
    assert(cycle_view(None, tcp, ports) =~= v6);
}

/// Two cycles over the same tables report the same addresses on the same
/// ports, whatever timestamps they carry.
pub proof fn lemma_same_tables_same_content(
    s1: Snapshot,
    s2: Snapshot,
    tcp4: Option<Seq<char>>,
    tcp6: Option<Seq<char>>,
    ports: Set<u16>,
)
    requires
        s1.content() == cycle_view(tcp4, tcp6, ports),
        s2.content() == cycle_view(tcp4, tcp6, ports),
    ensures
        s1.content() == s2.content(),
{
}

} // verus!
