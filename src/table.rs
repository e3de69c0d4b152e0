//! The kernel's TCP connection tables: one row at a time, and a whole table
//! grouped into the remote addresses seen on each local port.
use std::collections::HashSet;
use vstd::prelude::*;
use crate::codec::{
    IpAddress, ipv4_of_chars, ipv6_of_chars, ipv4_of_hex, ipv6_of_hex, parse_u16_radix, u16_of_digits,
};
use crate::text::{
    after_first, before_first, chars_after, chars_before, chars_of, fields, split_chars,
    split_fields, split_on, views, lemma_split_on_nonempty,
};

verus! {

broadcast use vstd::std_specs::hash::group_hash_axioms;

/// The two characters of the state code of an established connection.
pub open spec fn established() -> Seq<char> {
    seq!['0', '1']
}

/// The address a table writes before the colon of `s`, decoded for the
/// table's family.
pub open spec fn remote_of(s: Seq<char>, is_ipv6: bool) -> Option<IpAddress> {
    let hex = before_first(s, ':');
    if is_ipv6 {
        ipv6_of_hex(hex)
    } else {
        ipv4_of_hex(hex)
    }
}

/// What one data row of a table yields: the local port and the remote
/// address of an established connection on one of `ports`, or nothing.
pub open spec fn row_entry(line: Seq<char>, ports: Set<u16>, is_ipv6: bool) -> Option<(u16, IpAddress)> {
    let f = fields(line);
    if f.len() < 4 || f[3] != established() {
        None
    } else {
        let port = u16_of_digits(after_first(f[1], ':'), 16);
        let remote = remote_of(f[2], is_ipv6);
        if port is Some && ports.contains(port->0) && remote is Some {
            Some((port->0, remote->0))
        } else {
            None
        }
    }
}

/// The entries that the lines `lo .. hi` of `lines` yield.
pub open spec fn rows_pairs(
    lines: Seq<Seq<char>>,
    lo: int,
    hi: int,
    ports: Set<u16>,
    is_ipv6: bool,
) -> Set<(u16, IpAddress)> {
    Set::new(
        |x: (u16, IpAddress)|
            exists|j: int| lo <= j < hi && #[trigger] row_entry(lines[j], ports, is_ipv6) == Some(x),
    )
}

/// The entries of a whole table: every line but the first, which is a
/// header.
pub open spec fn table_pairs(text: Seq<char>, ports: Set<u16>, is_ipv6: bool) -> Set<(u16, IpAddress)> {
    let lines = split_on(text, '\n');
    rows_pairs(lines, 1, lines.len() as int, ports, is_ipv6)
}

/// Entries grouped by port: each port that occurs, with the set of its
/// addresses.
pub open spec fn grouped(pairs: Set<(u16, IpAddress)>) -> Map<u16, Set<IpAddress>> {
    Map::new(
        |p: u16| exists|a: IpAddress| pairs.contains((p, a)),
        |p: u16| Set::new(|a: IpAddress| pairs.contains((p, a))),
    )
}

/// The addresses seen on each local port in a whole table.
pub open spec fn table_view(text: Seq<char>, ports: Set<u16>, is_ipv6: bool) -> Map<u16, Set<IpAddress>> {
    grouped(table_pairs(text, ports, is_ipv6))
}

proof fn lemma_rows_pairs_step(lines: Seq<Seq<char>>, lo: int, hi: int, ports: Set<u16>, is_ipv6: bool)
    requires
        lo <= hi < lines.len(),
    ensures
        rows_pairs(lines, lo, hi + 1, ports, is_ipv6) == (match row_entry(lines[hi], ports, is_ipv6) {
            Some(x) => rows_pairs(lines, lo, hi, ports, is_ipv6).insert(x),
            None => rows_pairs(lines, lo, hi, ports, is_ipv6),
        }),
{
    let next = rows_pairs(lines, lo, hi + 1, ports, is_ipv6);
    let prev = rows_pairs(lines, lo, hi, ports, is_ipv6);
    let e = row_entry(lines[hi], ports, is_ipv6);
    assert forall|x: (u16, IpAddress)| next.contains(x) <==> (prev.contains(x) || e == Some(x)) by {
        if next.contains(x) {
            let j = choose|j: int| lo <= j < hi + 1 && #[trigger] row_entry(lines[j], ports, is_ipv6) == Some(x);
            if j < hi {
                assert(prev.contains(x));
            }
        }
        if prev.contains(x) {
            let j = choose|j: int| lo <= j < hi && #[trigger] row_entry(lines[j], ports, is_ipv6) == Some(x);
            assert(lo <= j < hi + 1);
        }
    }
    match e {
        Some(x) => {
            assert(next =~= prev.insert(x));
        },
        None => {
            assert(next =~= prev);
        },
    }
}

/// What one data row of a table yields: the local port and the remote
/// address of an established connection on one of `ports`, or nothing
/// where the row is malformed, not established, on another port, or its
/// address does not decode.
pub fn parse_row(line: &str, ports: &HashSet<u16>, is_ipv6: bool) -> (r: Option<(u16, IpAddress)>)
    ensures
        r == row_entry(line@, ports@, is_ipv6),
{
    let c = chars_of(line);
    entry_of_row(&c, ports, is_ipv6)
}

/// Groups the remote addresses of the established connections on `ports`
/// that a whole table lists, by local port. The first line is a header and
/// is skipped; rows that yield nothing are dropped.
pub fn scan_table(text: &str, ports: &HashSet<u16>, is_ipv6: bool) -> (r: PortMap)
    ensures
        r.wf(),
        r.pairs() == table_pairs(text@, ports@, is_ipv6),
        r@ == table_view(text@, ports@, is_ipv6),
{
    let c = chars_of(text);
    let lines = split_chars(&c, '\n');
    let ghost lv = views(lines@);
    proof {
        lemma_split_on_nonempty(c@, '\n');
    }
    let mut m = PortMap::new();
    assert(m.pairs() =~= rows_pairs(lv, 1, 1, ports@, is_ipv6));
    let mut i: usize = 1;
    while i < lines.len()
        invariant
            1 <= i <= lines.len(),
            lv == views(lines@),
            lv == split_on(c@, '\n'),
            m.wf(),
            m.pairs() == rows_pairs(lv, 1, i as int, ports@, is_ipv6),
        decreases lines.len() - i,
    {
        assert(lines[i as int]@ == lv[i as int]);
        proof {
            lemma_rows_pairs_step(lv, 1, i as int, ports@, is_ipv6);
        }
        match entry_of_row(&lines[i], ports, is_ipv6) {
            Some((p, a)) => m.add(p, a),
            None => {},
        }
        i = i + 1;
    }
    m
}

/// Scans a table that may not have been readable: an unreadable table
/// counts as one that lists no connection.
pub fn scan_source(source: Option<&str>, ports: &HashSet<u16>, is_ipv6: bool) -> (r: PortMap)
    ensures
        r.wf(),
        r.pairs() == (match source {
            Some(text) => table_pairs(text@, ports@, is_ipv6),
            None => Set::<(u16, IpAddress)>::empty(),
        }),
        source is None ==> r@ == Map::<u16, Set<IpAddress>>::empty(),
{
    match source {
        Some(text) => scan_table(text, ports, is_ipv6),
        None => {
            let r = PortMap::new();
            assert(r@ =~= Map::<u16, Set<IpAddress>>::empty());
            r
        },
    }
}

/// A table none of whose data rows is an established connection (or a
/// well-formed row at all) yields no port.
pub proof fn lemma_no_established_rows(text: Seq<char>, ports: Set<u16>, is_ipv6: bool)
    requires
        forall|j: int|
            1 <= j < split_on(text, '\n').len() ==> fields(#[trigger] split_on(text, '\n')[j]).len() < 4
                || fields(split_on(text, '\n')[j])[3] != established(),
    ensures
        table_view(text, ports, is_ipv6) == Map::<u16, Set<IpAddress>>::empty(),
{
    let lines = split_on(text, '\n');
    assert forall|x: (u16, IpAddress)| !table_pairs(text, ports, is_ipv6).contains(x) by {
        if table_pairs(text, ports, is_ipv6).contains(x) {
            let j = choose|j: int| 1 <= j < lines.len() && #[trigger] row_entry(lines[j], ports, is_ipv6) == Some(x);
            assert(fields(lines[j]).len() < 4 || fields(lines[j])[3] != established());
        }
    }
    assert(table_view(text, ports, is_ipv6) =~= Map::<u16, Set<IpAddress>>::empty());
}

proof fn lemma_split_on_without_sep(t: Seq<char>, sep: char)
    requires
        !t.contains(sep),
    ensures
        split_on(t, sep) == seq![t],
    decreases t.len(),
{
    if t.len() > 0 {
        let u = t.drop_last();
        assert(!u.contains(sep)) by {
            if u.contains(sep) {
                let j = choose|j: int| 0 <= j < u.len() && u[j] == sep;
                assert(t[j] == sep);
            }
        }
        lemma_split_on_without_sep(u, sep);
        assert(t[t.len() - 1] != sep);
        assert(u.push(t.last()) == t);
        assert(split_on(t, sep) =~= seq![t]);
    } else {
        assert(t =~= Seq::<char>::empty());
    }
}

/// A table of one line, the header, with or without a final newline,
/// yields no port.
pub proof fn lemma_header_only(text: Seq<char>, ports: Set<u16>, is_ipv6: bool)
    requires
        forall|i: int| 0 <= i < text.len() - 1 ==> text[i] != '\n',
    ensures
        table_view(text, ports, is_ipv6) == Map::<u16, Set<IpAddress>>::empty(),
{
    let lines = split_on(text, '\n');
    if text.len() > 0 && text.last() == '\n' {
        let u = text.drop_last();
        assert(!u.contains('\n')) by {
            if u.contains('\n') {
                let j = choose|j: int| 0 <= j < u.len() && u[j] == '\n';
                assert(text[j] == '\n');
            }
        }
        lemma_split_on_without_sep(u, '\n');
        assert(lines == seq![u, Seq::<char>::empty()]);
        assert(fields(lines[1]) == Seq::<Seq<char>>::empty());
    } else {
        assert(!text.contains('\n')) by {
            if text.contains('\n') {
                let j = choose|j: int| 0 <= j < text.len() && text[j] == '\n';
                assert(text[j] == '\n');
            }
        }
        lemma_split_on_without_sep(text, '\n');
    }
    lemma_no_established_rows(text, ports, is_ipv6);
}

/// Two data rows that yield the same port with different addresses, in a
/// table whose other rows yield nothing, give that one port with exactly
/// those two addresses.
pub proof fn lemma_two_remotes_one_port(
    text: Seq<char>,
    ports: Set<u16>,
    is_ipv6: bool,
    j1: int,
    j2: int,
    p: u16,
    a: IpAddress,
    b: IpAddress,
)
    requires
        1 <= j1 < split_on(text, '\n').len(),
        1 <= j2 < split_on(text, '\n').len(),
        row_entry(split_on(text, '\n')[j1], ports, is_ipv6) == Some((p, a)),
        row_entry(split_on(text, '\n')[j2], ports, is_ipv6) == Some((p, b)),
        a != b,
        forall|j: int|
            1 <= j < split_on(text, '\n').len() && j != j1 && j != j2 ==> #[trigger] row_entry(
                split_on(text, '\n')[j],
                ports,
                is_ipv6,
            ) is None,
    ensures
        table_view(text, ports, is_ipv6) == map![p => set![a, b]],
        table_view(text, ports, is_ipv6)[p].len() == 2,
{
    let lines = split_on(text, '\n');
    let t = table_pairs(text, ports, is_ipv6);
    assert forall|x: (u16, IpAddress)| t.contains(x) <==> (x == (p, a) || x == (p, b)) by {
        if t.contains(x) {
            let j = choose|j: int| 1 <= j < lines.len() && #[trigger] row_entry(lines[j], ports, is_ipv6) == Some(x);
            if j != j1 && j != j2 {
                assert(row_entry(lines[j], ports, is_ipv6) is None);
            }
        }
        if x == (p, a) {
            assert(row_entry(lines[j1], ports, is_ipv6) == Some(x));
        }
        if x == (p, b) {
            assert(row_entry(lines[j2], ports, is_ipv6) == Some(x));
        }
    }
    let v = table_view(text, ports, is_ipv6);
    assert(t.contains((p, a)));
    assert(v.contains_key(p));
    assert(v[p] =~= set![a, b]);
    assert(v =~= map![p => set![a, b]]);
    assert(set![a, b].len() == 2) by {
        assert(set![a, b] == Set::<IpAddress>::empty().insert(a).insert(b));
    }
}

/// The addresses seen on each local port, as a finite collection of
/// distinct (port, address) entries kept in the order they were first
/// added.
pub struct PortMap {
    entries: Vec<(u16, IpAddress)>,
}

impl View for PortMap {
    type V = Map<u16, Set<IpAddress>>;

    open spec fn view(&self) -> Map<u16, Set<IpAddress>> {
        grouped(self.pairs())
    }
}

impl PortMap {
    /// The (port, address) entries held.
    pub closed spec fn pairs(&self) -> Set<(u16, IpAddress)> {
        Set::new(|x: (u16, IpAddress)| self.entries@.contains(x))
    }

    /// No entry is held twice.
    pub closed spec fn wf(&self) -> bool {
        self.entries@.no_duplicates()
    }

    /// An empty map.
    pub fn new() -> (r: PortMap)
        ensures
            r.wf(),
            r.pairs() == Set::<(u16, IpAddress)>::empty(),
    {
        let r = PortMap { entries: Vec::new() };
        assert(r.pairs() =~= Set::<(u16, IpAddress)>::empty());
        r
    }

    /// Records that `addr` was seen on `port`.
    pub fn add(&mut self, port: u16, addr: IpAddress)
        requires
            old(self).wf(),
        ensures
            final(self).wf(),
            final(self).pairs() == old(self).pairs().insert((port, addr)),
    {
        let mut i: usize = 0;
        while i < self.entries.len()
            invariant
                i <= self.entries.len(),
                self.entries@ == old(self).entries@,
                self.entries@.no_duplicates(),
                forall|j: int| 0 <= j < i ==> self.entries@[j] != (port, addr),
            decreases self.entries.len() - i,
        {
            let e = self.entries[i];
            if e.0 == port && e.1 == addr {
                assert(self.pairs() =~= self.pairs().insert((port, addr)));
                return;
            }
            i = i + 1;
        }
        let ghost before = self.entries@;
        self.entries.push((port, addr));
        assert(self.entries@ == before.push((port, addr)));
        assert forall|x: (u16, IpAddress)| self.entries@.contains(x) <==> (before.contains(x) || x
            == (port, addr)) by {
            if self.entries@.contains(x) {
                let j = choose|j: int| 0 <= j < self.entries@.len() && self.entries@[j] == x;
                if j < before.len() {
                    assert(before[j] == x);
                }
            }
            if before.contains(x) {
                let j = choose|j: int| 0 <= j < before.len() && before[j] == x;
                assert(self.entries@[j] == x);
            }
            if x == (port, addr) {
                assert(self.entries@[before.len() as int] == x);
            }
        }
        assert(before == old(self).entries@);
        assert forall|x: (u16, IpAddress)| #[trigger] self.pairs().contains(x) <==> old(
            self,
        ).pairs().insert((port, addr)).contains(x) by {
            assert(self.pairs().contains(x) == self.entries@.contains(x));
            assert(old(self).pairs().contains(x) == before.contains(x));
        }
        assert(self.pairs() =~= old(self).pairs().insert((port, addr)));
    }

    /// The entries of both maps.
    pub fn union(&self, other: &PortMap) -> (r: PortMap)
        requires
            self.wf(),
            other.wf(),
        ensures
            r.wf(),
            r.pairs() == self.pairs().union(other.pairs()),
    {
        let mut r = PortMap::new();
        let mut i: usize = 0;
        while i < self.entries.len()
            invariant
                i <= self.entries.len(),
                r.wf(),
                r.pairs() == Set::new(|x: (u16, IpAddress)| self.entries@.take(i as int).contains(x)),
            decreases self.entries.len() - i,
        {
            let e = self.entries[i];
            assert((e.0, e.1) == self.entries@[i as int]);
            r.add(e.0, e.1);
            proof {
                lemma_take_contains_step(self.entries@, i as int);
            }
            assert forall|x: (u16, IpAddress)| #[trigger] r.pairs().contains(x) <==> self.entries@.take(i + 1).contains(x) by {
                assert(r.pairs().contains(x) <==> (self.entries@.take(i as int).contains(x) || x == self.entries@[i as int]));
            }
            assert(r.pairs() =~= Set::new(|x: (u16, IpAddress)| self.entries@.take(i + 1).contains(x)));
            i = i + 1;
        }
        assert(self.entries@.take(i as int) == self.entries@);
        let mut k: usize = 0;
        while k < other.entries.len()
            invariant
                k <= other.entries.len(),
                r.wf(),
                r.pairs() == self.pairs().union(
                    Set::new(|x: (u16, IpAddress)| other.entries@.take(k as int).contains(x)),
                ),
            decreases other.entries.len() - k,
        {
            let e = other.entries[k];
            assert((e.0, e.1) == other.entries@[k as int]);
            r.add(e.0, e.1);
            proof {
                lemma_take_contains_step(other.entries@, k as int);
            }
            assert forall|x: (u16, IpAddress)| #[trigger] r.pairs().contains(x) <==> (self.pairs().contains(x) || other.entries@.take(k + 1).contains(x)) by {
                assert(other.entries@.take(k + 1).contains(x) <==> (other.entries@.take(k as int).contains(x) || x == other.entries@[k as int]));
            }
            assert(r.pairs() =~= self.pairs().union(
                Set::new(|x: (u16, IpAddress)| other.entries@.take(k + 1).contains(x)),
            ));
            k = k + 1;
        }
        assert(other.entries@.take(k as int) == other.entries@);
        assert(r.pairs() =~= self.pairs().union(other.pairs()));
        r
    }

    /// Whether no port has been seen.
    pub fn is_empty(&self) -> (r: bool)
        ensures
            r == (self@ == Map::<u16, Set<IpAddress>>::empty()),
    {
        if self.entries.len() == 0 {
            assert(self@ =~= Map::<u16, Set<IpAddress>>::empty());
            true
        } else {
            let e = self.entries[0];
            assert(self.entries@[0] == (e.0, e.1));
            assert(self.pairs().contains((e.0, e.1)));
            assert(self@.contains_key(e.0));
            false
        }
    }

    /// The ports seen, each once, in the order they were first seen.
    pub fn ports(&self) -> (r: Vec<u16>)
        ensures
            r@.no_duplicates(),
            r@.to_set() == self@.dom(),
    {
        let mut r: Vec<u16> = Vec::new();
        let mut i: usize = 0;
        while i < self.entries.len()
            invariant
                i <= self.entries.len(),
                r@.no_duplicates(),
                forall|q: u16| r@.contains(q) <==> exists|j: int| 0 <= j < i && #[trigger] self.entries@[j].0 == q,
            decreases self.entries.len() - i,
        {
            let p = self.entries[i].0;
            let ghost old_r = r@;
            if !contains_port(&r, p) {
                r.push(p);
                proof {
                    assert forall|q: u16| r@.contains(q) <==> (old_r.contains(q) || q == p) by {
                        if r@.contains(q) {
                            let j = choose|j: int| 0 <= j < r@.len() && r@[j] == q;
                            if j < old_r.len() {
                                assert(old_r[j] == q);
                            }
                        }
                        if old_r.contains(q) {
                            let j = choose|j: int| 0 <= j < old_r.len() && old_r[j] == q;
                            assert(r@[j] == q);
                        }
                        if q == p {
                            assert(r@[old_r.len() as int] == q);
                        }
                    }
                }
            }
            assert(forall|q: u16| r@.contains(q) <==> (old_r.contains(q) || q == p));
            assert(self.entries@[i as int].0 == p);
            assert forall|q: u16| r@.contains(q) <==> exists|j: int| 0 <= j < i + 1 && #[trigger] self.entries@[j].0 == q by {
                if exists|j: int| 0 <= j < i + 1 && #[trigger] self.entries@[j].0 == q {
                    let j = choose|j: int| 0 <= j < i + 1 && #[trigger] self.entries@[j].0 == q;
                    if j == i {
                        assert(q == p);
                    }
                }
                if old_r.contains(q) {
                    let j = choose|j: int| 0 <= j < i && #[trigger] self.entries@[j].0 == q;
                    assert(0 <= j < i + 1 && self.entries@[j].0 == q);
                }
                if q == p {
                    assert(0 <= i < i + 1 && self.entries@[i as int].0 == q);
                }
            }
            i = i + 1;
        }
        assert forall|q: u16| r@.to_set().contains(q) <==> self@.dom().contains(q) by {
            if r@.contains(q) {
                let j = choose|j: int| 0 <= j < self.entries.len() && #[trigger] self.entries@[j].0 == q;
                assert(self.pairs().contains((q, self.entries@[j].1)));
            }
            if self@.dom().contains(q) {
                let a = choose|a: IpAddress| self.pairs().contains((q, a));
                let j = choose|j: int| 0 <= j < self.entries.len() && self.entries@[j] == (q, a);
                assert(self.entries@[j].0 == q);
            }
        }
        assert(r@.to_set() =~= self@.dom());
        r
    }

    /// The addresses seen on `port`, each once, in the order they were
    /// first seen; none for a port that was not seen.
    pub fn addresses(&self, port: u16) -> (r: Vec<IpAddress>)
        ensures
            r@.no_duplicates(),
            r@.to_set() == (if self@.contains_key(port) {
                self@[port]
            } else {
                Set::<IpAddress>::empty()
            }),
    {
        let mut r: Vec<IpAddress> = Vec::new();
        let mut i: usize = 0;
        while i < self.entries.len()
            invariant
                i <= self.entries.len(),
                r@.no_duplicates(),
                forall|a: IpAddress| r@.contains(a) <==> exists|j: int| 0 <= j < i && #[trigger] self.entries@[j] == (port, a),
            decreases self.entries.len() - i,
        {
            let e = self.entries[i];
            let ghost old_r = r@;
            if e.0 == port && !contains_addr(&r, e.1) {
                r.push(e.1);
                proof {
                    assert forall|a: IpAddress| r@.contains(a) <==> (old_r.contains(a) || a == e.1) by {
                        if r@.contains(a) {
                            let j = choose|j: int| 0 <= j < r@.len() && r@[j] == a;
                            if j < old_r.len() {
                                assert(old_r[j] == a);
                            }
                        }
                        if old_r.contains(a) {
                            let j = choose|j: int| 0 <= j < old_r.len() && old_r[j] == a;
                            assert(r@[j] == a);
                        }
                        if a == e.1 {
                            assert(r@[old_r.len() as int] == a);
                        }
                    }
                }
            }
            assert(forall|a: IpAddress| r@.contains(a) <==> (old_r.contains(a) || (e.0 == port && a == e.1)));
            assert(self.entries@[i as int] == (e.0, e.1));
            assert forall|a: IpAddress| r@.contains(a) <==> exists|j: int| 0 <= j < i + 1 && #[trigger] self.entries@[j] == (port, a) by {
                if exists|j: int| 0 <= j < i + 1 && #[trigger] self.entries@[j] == (port, a) {
                    let j = choose|j: int| 0 <= j < i + 1 && #[trigger] self.entries@[j] == (port, a);
                    if j == i {
                        assert(e.0 == port && a == e.1);
                    }
                }
                if r@.contains(a) && !old_r.contains(a) {
                    assert(self.entries@[i as int] == (port, a));
                }
                if old_r.contains(a) {
                    let j = choose|j: int| 0 <= j < i && #[trigger] self.entries@[j] == (port, a);
                    assert(0 <= j < i + 1 && self.entries@[j] == (port, a));
                }
            }
            i = i + 1;
        }
        assert forall|a: IpAddress| r@.to_set().contains(a) <==> self.pairs().contains((port, a)) by {
            if r@.contains(a) {
                let j = choose|j: int| 0 <= j < self.entries.len() && #[trigger] self.entries@[j] == (port, a);
                assert(self.entries@.contains((port, a)));
            }
            if self.pairs().contains((port, a)) {
                let j = choose|j: int| 0 <= j < self.entries.len() && self.entries@[j] == (port, a);
                assert(self.entries@[j] == (port, a));
            }
        }
        proof {
            if self@.contains_key(port) {
                assert(r@.to_set() =~= self@[port]);
            } else {
                assert forall|a: IpAddress| !r@.to_set().contains(a) by {
                    if r@.to_set().contains(a) {
                        assert(self.pairs().contains((port, a)));
                    }
                }
                assert(r@.to_set() =~= Set::<IpAddress>::empty());
            }
        }
        r
    }
}

proof fn lemma_take_contains_step<T>(s: Seq<T>, i: int)
    requires
        0 <= i < s.len(),
    ensures
        forall|x: T| s.take(i + 1).contains(x) <==> (s.take(i).contains(x) || x == s[i]),
{
    let a = s.take(i + 1);
    let b = s.take(i);
    assert forall|x: T| a.contains(x) <==> (b.contains(x) || x == s[i]) by {
        if a.contains(x) {
            let j = choose|j: int| 0 <= j < a.len() && a[j] == x;
            if j < i {
                assert(b[j] == x);
            }
        }
        if b.contains(x) {
            let j = choose|j: int| 0 <= j < b.len() && b[j] == x;
            assert(a[j] == x);
        }
        if x == s[i] {
            assert(s.take(i + 1)[i] == x);
        }
    }
}

fn contains_port(v: &Vec<u16>, p: u16) -> (r: bool)
    ensures
        r == v@.contains(p),
{
    let mut i: usize = 0;
    while i < v.len()
        invariant
            i <= v.len(),
            forall|j: int| 0 <= j < i ==> v@[j] != p,
        decreases v.len() - i,
    {
        if v[i] == p {
            return true;
        }
        i = i + 1;
    }
    false
}

pub(crate) fn contains_addr(v: &Vec<IpAddress>, a: IpAddress) -> (r: bool)
    ensures
        r == v@.contains(a),
{
    let mut i: usize = 0;
    while i < v.len()
        invariant
            i <= v.len(),
            forall|j: int| 0 <= j < i ==> v@[j] != a,
        decreases v.len() - i,
    {
        if v[i] == a {
            return true;
        }
        i = i + 1;
    }
    false
}

/// What one data row yields, from its characters.
fn entry_of_row(line: &Vec<char>, ports: &HashSet<u16>, is_ipv6: bool) -> (r: Option<(u16, IpAddress)>)
    ensures
        r == row_entry(line@, ports@, is_ipv6),
{
    let f = split_fields(line);
    if f.len() < 4 {
        return None;
    }
    let ghost fv = views(f@);
    assert(fv[1] == f@[1]@ && fv[2] == f@[2]@ && fv[3] == f@[3]@);
    if f[3].len() != 2 || f[3][0] != '0' || f[3][1] != '1' {
        assert(fv[3] != established()) by {
            if fv[3] == established() {
                assert(fv[3].len() == 2 && fv[3][0] == '0' && fv[3][1] == '1');
            }
        }
        return None;
    }
    assert(fv[3] =~= established());
    let port_hex = chars_after(&f[1], ':');
    let port = match parse_u16_radix(&port_hex, 16) {
        Some(p) => p,
        None => return None,
    };
    if !ports.contains(&port) {
        return None;
    }
    let remote_hex = chars_before(&f[2], ':');
    let remote = if is_ipv6 {
        ipv6_of_chars(&remote_hex)
    } else {
        ipv4_of_chars(&remote_hex)
    };
    match remote {
        Some(a) => Some((port, a)),
        None => None,
    }
}

} // verus!
