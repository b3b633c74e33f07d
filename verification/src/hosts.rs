//! Hosts files: addresses of names, for answering A and AAAA queries.
use vstd::prelude::*;

use crate::addr::{parse_ip, spec_parse_ip, IpAddr, Ipv4, Ipv6};
use crate::order::{compare_bytes, Cmp};
use crate::rr::{ascii, is_keyword};
use crate::text::{is_utf8, line_end, newline_pos, slice_range, split_words, trim_ascii, trim_bounds, words};
use vstd::utf8::valid_utf8;

verus! {

/// Names to the addresses listed for them, in order.
pub struct NameMap<T> {
    names: Vec<Vec<u8>>,
    addrs: Vec<Vec<T>>,
}

/// No name occurs twice.
pub open spec fn all_distinct(names: Seq<Seq<u8>>) -> bool {
    forall|i: int, j: int| 0 <= i < j < names.len() ==> names[i] != names[j]
}

impl<T> NameMap<T> {
    pub closed spec fn names_view(&self) -> Seq<Seq<u8>> {
        self.names@.map_values(|n: Vec<u8>| n@)
    }

    /// The names and their address lists pair up, and no name occurs twice.
    pub closed spec fn wf(&self) -> bool {
        &&& self.names@.len() == self.addrs@.len()
        &&& all_distinct(self.names_view())
    }

    /// Each name to the addresses listed for it.
    pub closed spec fn map(&self) -> Map<Seq<u8>, Seq<T>> {
        Map::new(
            |k: Seq<u8>| exists|i: int| 0 <= i < self.names@.len() && self.names@[i]@ == k,
            |k: Seq<u8>|
                self.addrs@[choose|i: int| 0 <= i < self.names@.len() && self.names@[i]@ == k]@,
        )
    }

    /// An empty map.
    pub fn new() -> (r: Self)
        ensures
            r.wf(),
            r.map() == Map::<Seq<u8>, Seq<T>>::empty(),
    {
        let r = NameMap { names: Vec::new(), addrs: Vec::new() };
        assert(r.map() =~= Map::<Seq<u8>, Seq<T>>::empty());
        r
    }

    /// Where `name` is, if it is there.
    fn position(&self, name: &[u8]) -> (r: Option<usize>)
        requires
            self.wf(),
        ensures
            match r {
                Some(i) => i < self.names@.len() && self.names@[i as int]@ == name@,
                None => !self.map().contains_key(name@),
            },
    {
        let mut i: usize = 0;
        while i < self.names.len()
            invariant
                i <= self.names@.len(),
                forall|j: int| 0 <= j < i ==> (#[trigger] self.names@[j])@ != name@,
            decreases self.names@.len() - i,
        {
            if compare_bytes(self.names[i].as_slice(), name) == Cmp::Equal {
                return Some(i);
            }
            i = i + 1;
        }
        None
    }

    /// The addresses listed for `name`.
    pub fn get(&self, name: &[u8]) -> (r: Option<&Vec<T>>)
        requires
            self.wf(),
        ensures
            match r {
                Some(v) => self.map().contains_key(name@) && v@ == self.map()[name@],
                None => !self.map().contains_key(name@),
            },
    {
        match self.position(name) {
            Some(i) => {
                proof {
                    let j = choose|j: int| 0 <= j < self.names@.len() && self.names@[j]@ == name@;
                    if j != i {
                        assert(self.names_view()[j] == self.names_view()[i as int]);
                    }
                }
                Some(&self.addrs[i])
            },
            None => None,
        }
    }

    /// Lists `x` after the addresses already listed for `name`.
    pub fn push(&mut self, name: &[u8], x: T)
        requires
            old(self).wf(),
        ensures
            final(self).wf(),
            final(self).map() == old(self).map().insert(
                name@,
                (if old(self).map().contains_key(name@) {
                    old(self).map()[name@]
                } else {
                    Seq::empty()
                }).push(x),
            ),
    {
        let ghost old_map = self.map();
        match self.position(name) {
            Some(i) => {
                proof {
                    let j = choose|j: int| 0 <= j < self.names@.len() && self.names@[j]@ == name@;
                    if j != i {
                        assert(self.names_view()[j] == self.names_view()[i as int]);
                    }
                }
                let ghost old_names = self.names@;
                let ghost old_addrs = self.addrs@;
                let mut v: Vec<T> = Vec::new();
                std::mem::swap(&mut v, &mut self.addrs[i]);
                v.push(x);
                std::mem::swap(&mut v, &mut self.addrs[i]);
                proof {
                    assert(self.names@ == old_names);
                    assert(self.names_view() == old(self).names_view());
                    assert forall|k: Seq<u8>| #[trigger] self.map().contains_key(k) implies self.map()[k]
                        == old_map.insert(name@, old_map[name@].push(x))[k] by {
                        let j = choose|j: int| 0 <= j < self.names@.len() && self.names@[j]@ == k;
                        if k == name@ {
                            if j != i {
                                assert(self.names_view()[j] == self.names_view()[i as int]);
                            }
                        } else {
                            let j0 = choose|j: int| 0 <= j < old_names.len() && old_names[j]@ == k;
                            if j0 != j {
                                assert(self.names_view()[j] == self.names_view()[j0]);
                            }
                            assert(self.addrs@[j] == old_addrs[j]);
                        }
                    }
                    assert(self.map() =~= old_map.insert(name@, old_map[name@].push(x)));
                }
            },
            None => {
                let ghost old_names = self.names@;
                let ghost old_addrs = self.addrs@;
                self.names.push(vstd::slice::slice_to_vec(name));
                let mut v: Vec<T> = Vec::new();
                v.push(x);
                self.addrs.push(v);
                proof {
                    assert(self.names_view() =~= old(self).names_view().push(name@));
                    assert forall|k: Seq<u8>| #[trigger] self.map().contains_key(k) implies self.map()[k]
                        == old_map.insert(name@, Seq::<T>::empty().push(x))[k] by {
                        let j = choose|j: int| 0 <= j < self.names@.len() && self.names@[j]@ == k;
                        if k == name@ {
                            if j != old_names.len() {
                                assert(old_names[j]@ == name@);
                            }
                            assert(self.addrs@[j]@ =~= Seq::<T>::empty().push(x));
                        } else {
                            assert(j < old_names.len());
                            assert(old_names[j]@ == k);
                            let j0 = choose|j: int| 0 <= j < old_names.len() && old_names[j]@ == k;
                            if j0 != j {
                                assert(old(self).names_view()[j] == old(self).names_view()[j0]);
                            }
                        }
                    }
                    assert forall|k: Seq<u8>| #[trigger] old_map.insert(name@, Seq::<T>::empty().push(x)).contains_key(k)
                        implies self.map().contains_key(k) by {
                        if k == name@ {
                            assert(self.names@[old_names.len() as int]@ == k);
                        } else {
                            let j0 = choose|j: int| 0 <= j < old_names.len() && old_names[j]@ == k;
                            assert(self.names@[j0]@ == k);
                        }
                    }
                    assert(self.map() =~= old_map.insert(name@, Seq::<T>::empty().push(x)));
                }
            },
        }
    }
}

/// Names a hosts file may list that are never served from it.
pub open spec fn black_listed(name: Seq<u8>) -> bool {
    name == ascii(seq!['l', 'o', 'c', 'a', 'l', 'h', 'o', 's', 't'])
        || name == ascii(seq!['i', 'p', '6', '-', 'l', 'o', 'c', 'a', 'l', 'h', 'o', 's', 't'])
        || name == ascii(seq!['i', 'p', '6', '-', 'l', 'o', 'o', 'p', 'b', 'a', 'c', 'k'])
        || name == ascii(seq!['i', 'p', '6', '-', 'a', 'l', 'l', 'n', 'o', 'd', 'e', 's'])
        || name == ascii(seq!['i', 'p', '6', '-', 'a', 'l', 'l', 'r', 'o', 'u', 't', 'e', 'r', 's'])
}

/// The (address, name) records of one line of a hosts file: none for a
/// blank or comment line or one whose first word is no IP address, else the
/// address with each following name that is not black-listed.
pub open spec fn hosts_line(line: Seq<u8>) -> Seq<(IpAddr, Seq<u8>)> {
    let t = trim_ascii(line);
    let ws = words(t);
    if t.len() == 0 || t[0] == 0x23 || ws.len() == 0 {
        seq![]
    } else {
        match spec_parse_ip(ws[0]) {
            None => seq![],
            Some(ip) => host_recs(ip, ws.skip(1)),
        }
    }
}

/// The address with each name of `ns` that is not black-listed.
pub open spec fn host_recs(ip: IpAddr, ns: Seq<Seq<u8>>) -> Seq<(IpAddr, Seq<u8>)> {
    ns.filter(|n: Seq<u8>| !black_listed(n)).map_values(|n: Seq<u8>| (ip, n))
}

proof fn lemma_host_recs_push(ip: IpAddr, ns: Seq<Seq<u8>>, n: Seq<u8>)
    ensures
        host_recs(ip, ns.push(n)) == (if black_listed(n) {
            host_recs(ip, ns)
        } else {
            host_recs(ip, ns).push((ip, n))
        }),
        host_recs(ip, Seq::empty()) == Seq::<(IpAddr, Seq<u8>)>::empty(),
{
    reveal(Seq::filter);
    assert(ns.push(n).drop_last() =~= ns);
    assert(Seq::<Seq<u8>>::empty().filter(|n: Seq<u8>| !black_listed(n)) =~= Seq::<Seq<u8>>::empty());
    if !black_listed(n) {
        assert(host_recs(ip, ns.push(n)) =~= host_recs(ip, ns).push((ip, n)));
    }
    assert(host_recs(ip, Seq::empty()) =~= Seq::<(IpAddr, Seq<u8>)>::empty());
}

/// The line of `s` up to its first line feed.
pub open spec fn first_line(s: Seq<u8>) -> Seq<u8> {
    let k = newline_pos(s);
    if k >= s.len() {
        s
    } else {
        s.take(k as int)
    }
}

/// The records of a hosts file, line by line, as far as its lines are valid
/// UTF-8, and whether all of them are: reading stops at the first line that
/// is not, keeping the records of the lines before it.
pub open spec fn hosts_read(s: Seq<u8>) -> (Seq<(IpAddr, Seq<u8>)>, bool)
    decreases s.len(),
{
    let k = newline_pos(s);
    if !valid_utf8(first_line(s)) {
        (seq![], false)
    } else if k >= s.len() {
        (hosts_line(s), true)
    } else {
        let rest = hosts_read(s.skip((k + 1) as int));
        (hosts_line(s.take(k as int)) + rest.0, rest.1)
    }
}

/// `m` with `x` listed after what it lists for `name`.
pub open spec fn listed<T>(m: Map<Seq<u8>, Seq<T>>, name: Seq<u8>, x: T) -> Map<Seq<u8>, Seq<T>> {
    m.insert(
        name,
        (if m.contains_key(name) {
            m[name]
        } else {
            Seq::empty()
        }).push(x),
    )
}

/// The IPv4 maps after listing the IPv4 records of `recs` in order.
pub open spec fn listed_v4(m: Map<Seq<u8>, Seq<Ipv4>>, recs: Seq<(IpAddr, Seq<u8>)>) -> Map<
    Seq<u8>,
    Seq<Ipv4>,
>
    decreases recs.len(),
{
    if recs.len() == 0 {
        m
    } else {
        let m2 = listed_v4(m, recs.drop_last());
        match recs.last().0 {
            IpAddr::V4(a) => listed(m2, recs.last().1, a),
            IpAddr::V6(_) => m2,
        }
    }
}

/// The IPv6 maps after listing the IPv6 records of `recs` in order.
pub open spec fn listed_v6(m: Map<Seq<u8>, Seq<Ipv6>>, recs: Seq<(IpAddr, Seq<u8>)>) -> Map<
    Seq<u8>,
    Seq<Ipv6>,
>
    decreases recs.len(),
{
    if recs.len() == 0 {
        m
    } else {
        let m2 = listed_v6(m, recs.drop_last());
        match recs.last().0 {
            IpAddr::V6(a) => listed(m2, recs.last().1, a),
            IpAddr::V4(_) => m2,
        }
    }
}

proof fn lemma_listed_concat_v4(m: Map<Seq<u8>, Seq<Ipv4>>, a: Seq<(IpAddr, Seq<u8>)>, b: Seq<(IpAddr, Seq<u8>)>)
    ensures
        listed_v4(m, a + b) == listed_v4(listed_v4(m, a), b),
    decreases b.len(),
{
    if b.len() == 0 {
        assert(a + b =~= a);
    } else {
        assert((a + b).drop_last() =~= a + b.drop_last());
        lemma_listed_concat_v4(m, a, b.drop_last());
    }
}

proof fn lemma_listed_concat_v6(m: Map<Seq<u8>, Seq<Ipv6>>, a: Seq<(IpAddr, Seq<u8>)>, b: Seq<(IpAddr, Seq<u8>)>)
    ensures
        listed_v6(m, a + b) == listed_v6(listed_v6(m, a), b),
    decreases b.len(),
{
    if b.len() == 0 {
        assert(a + b =~= a);
    } else {
        assert((a + b).drop_last() =~= a + b.drop_last());
        lemma_listed_concat_v6(m, a, b.drop_last());
    }
}

proof fn lemma_host_recs_clean(ip: IpAddr, ns: Seq<Seq<u8>>)
    ensures
        forall|i: int| 0 <= i < host_recs(ip, ns).len() ==> !black_listed(#[trigger] host_recs(ip, ns)[i].1),
    decreases ns.len(),
{
    if ns.len() > 0 {
        lemma_host_recs_clean(ip, ns.drop_last());
        lemma_host_recs_push(ip, ns.drop_last(), ns.last());
        assert(ns.drop_last().push(ns.last()) =~= ns);
    } else {
        lemma_host_recs_push(ip, ns, Seq::empty());
    }
}

/// A hosts file never lists a black-listed name.
pub proof fn lemma_no_black_listed_records(s: Seq<u8>)
    ensures
        forall|i: int|
            0 <= i < hosts_read(s).0.len() ==> !black_listed(#[trigger] hosts_read(s).0[i].1),
    decreases s.len(),
{
    let k = newline_pos(s);
    let line = if k >= s.len() {
        s
    } else {
        s.take(k as int)
    };
    let t = trim_ascii(line);
    let ws = words(t);
    if !(t.len() == 0 || t[0] == 0x23 || ws.len() == 0) {
        if let Some(ip) = spec_parse_ip(ws[0]) {
            lemma_host_recs_clean(ip, ws.skip(1));
        }
    }
    if k < s.len() && valid_utf8(first_line(s)) {
        lemma_no_black_listed_records(s.skip((k + 1) as int));
        let a = hosts_line(s.take(k as int));
        let b = hosts_read(s.skip((k + 1) as int)).0;
        assert forall|i: int| 0 <= i < (a + b).len() implies !black_listed(#[trigger] (a + b)[i].1) by {
            if i >= a.len() {
                assert((a + b)[i] == b[i - a.len()]);
            }
        }
    }
}

/// Whether `name` is black-listed.
fn is_black_listed(name: &[u8]) -> (r: bool)
    ensures
        r == black_listed(name@),
{
    let a: [char; 9] = ['l', 'o', 'c', 'a', 'l', 'h', 'o', 's', 't'];
    assert(a@ =~= seq!['l', 'o', 'c', 'a', 'l', 'h', 'o', 's', 't']);
    let b: [char; 13] = ['i', 'p', '6', '-', 'l', 'o', 'c', 'a', 'l', 'h', 'o', 's', 't'];
    assert(b@ =~= seq!['i', 'p', '6', '-', 'l', 'o', 'c', 'a', 'l', 'h', 'o', 's', 't']);
    let c: [char; 12] = ['i', 'p', '6', '-', 'l', 'o', 'o', 'p', 'b', 'a', 'c', 'k'];
    assert(c@ =~= seq!['i', 'p', '6', '-', 'l', 'o', 'o', 'p', 'b', 'a', 'c', 'k']);
    let d: [char; 12] = ['i', 'p', '6', '-', 'a', 'l', 'l', 'n', 'o', 'd', 'e', 's'];
    assert(d@ =~= seq!['i', 'p', '6', '-', 'a', 'l', 'l', 'n', 'o', 'd', 'e', 's']);
    let e: [char; 14] = ['i', 'p', '6', '-', 'a', 'l', 'l', 'r', 'o', 'u', 't', 'e', 'r', 's'];
    assert(e@ =~= seq!['i', 'p', '6', '-', 'a', 'l', 'l', 'r', 'o', 'u', 't', 'e', 'r', 's']);
    is_keyword(name, a.as_slice()) || is_keyword(name, b.as_slice()) || is_keyword(name, c.as_slice())
        || is_keyword(name, d.as_slice()) || is_keyword(name, e.as_slice())
}


/// Lists the records of the line `file[lo..hi]`.
fn hosts_line_exec(
    hosts4: &mut NameMap<Ipv4>,
    hosts6: &mut NameMap<Ipv6>,
    file: &[u8],
    lo: usize,
    hi: usize,
)
    requires
        lo <= hi <= file@.len(),
        old(hosts4).wf(),
        old(hosts6).wf(),
    ensures
        final(hosts4).wf(),
        final(hosts6).wf(),
        final(hosts4).map() == listed_v4(old(hosts4).map(), hosts_line(file@.subrange(lo as int, hi as int))),
        final(hosts6).map() == listed_v6(old(hosts6).map(), hosts_line(file@.subrange(lo as int, hi as int))),
{
    let ghost line = file@.subrange(lo as int, hi as int);
    let (a, b) = trim_bounds(file, lo, hi);
    let t = slice_range(file, a, b);
    assert(t@ == trim_ascii(line));
    let ws = split_words(t);
    let ghost wsv = ws@.map_values(|w: Vec<u8>| w@);
    if t.len() == 0 || t[0] == 0x23 || ws.len() == 0 {
        assert(hosts_line(line) =~= Seq::<(IpAddr, Seq<u8>)>::empty());
        return;
    }
    assert(wsv[0] == ws@[0]@);
    let ip = match parse_ip(ws[0].as_slice()) {
        Some(ip) => ip,
        None => {
            assert(hosts_line(line) =~= Seq::<(IpAddr, Seq<u8>)>::empty());
            return;
        },
    };
    let ghost names = wsv.skip(1);
    let ghost m4 = hosts4.map();
    let ghost m6 = hosts6.map();
    let mut i: usize = 1;
    assert(names.take(0) =~= Seq::<Seq<u8>>::empty());
    proof {
        lemma_host_recs_push(ip, names.take(0), Seq::empty());
    }
    while i < ws.len()
        invariant
            1 <= i <= ws@.len(),
            wsv == ws@.map_values(|w: Vec<u8>| w@),
            names == wsv.skip(1),
            hosts4.wf(),
            hosts6.wf(),
            hosts4.map() == listed_v4(m4, host_recs(ip, names.take(i - 1))),
            hosts6.map() == listed_v6(m6, host_recs(ip, names.take(i - 1))),
        decreases ws@.len() - i,
    {
        let ghost before = names.take(i - 1);
        assert(names.take(i as int) =~= before.push(ws@[i as int]@));
        proof {
            lemma_host_recs_push(ip, before, ws@[i as int]@);
        }
        if !is_black_listed(ws[i].as_slice()) {
            let ghost rs = host_recs(ip, before);
            assert(rs.push((ip, ws@[i as int]@)).drop_last() =~= rs);
            assert(rs.push((ip, ws@[i as int]@)).last() == (ip, ws@[i as int]@));
            match ip {
                IpAddr::V4(v) => {
                    hosts4.push(ws[i].as_slice(), v);
                },
                IpAddr::V6(v) => {
                    hosts6.push(ws[i].as_slice(), v);
                },
            }
        } else {
        }
        i = i + 1;
    }
    assert(names.take(i - 1) =~= names);
}

/// Reads a hosts file: each line an address and the names it has, `#`
/// starting a comment. The addresses of each name are listed in `hosts4`
/// or `hosts6` after those already there; a line whose first word is no
/// address is left out, and so are black-listed names. Reading stops with
/// an error at the first line that is not valid UTF-8, the lines before it
/// listed.
pub fn parse_hosts(hosts4: &mut NameMap<Ipv4>, hosts6: &mut NameMap<Ipv6>, file: &[u8]) -> (r: Result<
    (),
    (),
>)
    requires
        old(hosts4).wf(),
        old(hosts6).wf(),
    ensures
        r is Ok <==> hosts_read(file@).1,
        final(hosts4).wf(),
        final(hosts6).wf(),
        final(hosts4).map() == listed_v4(old(hosts4).map(), hosts_read(file@).0),
        final(hosts6).map() == listed_v6(old(hosts6).map(), hosts_read(file@).0),
{
    let ghost m4 = hosts4.map();
    let ghost m6 = hosts6.map();
    let mut pos: usize = 0;
    assert(file@.skip(0) =~= file@);
    loop
        invariant
            pos <= file@.len(),
            hosts4.wf(),
            hosts6.wf(),
            m4 == old(hosts4).map(),
            m6 == old(hosts6).map(),
            hosts_read(file@.skip(pos as int)).1 == hosts_read(file@).1,
            listed_v4(hosts4.map(), hosts_read(file@.skip(pos as int)).0) == listed_v4(m4, hosts_read(file@).0),
            listed_v6(hosts6.map(), hosts_read(file@.skip(pos as int)).0) == listed_v6(m6, hosts_read(file@).0),
        decreases file@.len() - pos,
    {
        let ghost rest = file@.skip(pos as int);
        let ghost h4 = hosts4.map();
        let ghost h6 = hosts6.map();
        let k = line_end(file, pos);
        assert(rest.take(newline_pos(rest) as int) =~= file@.subrange(pos as int, k as int));
        if k >= file.len() {
            assert(rest =~= file@.subrange(pos as int, k as int));
        }
        assert(first_line(rest) == file@.subrange(pos as int, k as int));
        if !is_utf8(slice_range(file, pos, k)) {
            return Err(());
        }
        hosts_line_exec(hosts4, hosts6, file, pos, k);
        if k >= file.len() {
            assert(hosts_read(rest).0 == hosts_line(rest));
            return Ok(());
        }
        assert(rest.skip((newline_pos(rest) + 1) as int) =~= file@.skip(k + 1));
        let ghost hl = hosts_line(file@.subrange(pos as int, k as int));
        let ghost hr = hosts_read(file@.skip(k + 1)).0;
        assert(hosts_read(rest).0 == hl + hr);
        proof {
            lemma_listed_concat_v4(h4, hl, hr);
            lemma_listed_concat_v6(h6, hl, hr);
        }
        pos = k + 1;
    }
}

/// The names a hosts file never serves: `localhost`, `ip6-localhost`,
/// `ip6-loopback`, `ip6-allnodes` and `ip6-allrouters`, exactly as written.
pub proof fn lemma_black_list(name: Seq<u8>)
    ensures
        black_listed(name) <==> (name == seq![0x6cu8, 0x6fu8, 0x63u8, 0x61u8, 0x6cu8, 0x68u8, 0x6fu8, 0x73u8, 0x74u8] || name == seq![0x69u8, 0x70u8, 0x36u8, 0x2du8, 0x6cu8, 0x6fu8, 0x63u8, 0x61u8, 0x6cu8, 0x68u8, 0x6fu8, 0x73u8, 0x74u8] || name == seq![0x69u8, 0x70u8, 0x36u8, 0x2du8, 0x6cu8, 0x6fu8, 0x6fu8, 0x70u8, 0x62u8, 0x61u8, 0x63u8, 0x6bu8] || name == seq![0x69u8, 0x70u8, 0x36u8, 0x2du8, 0x61u8, 0x6cu8, 0x6cu8, 0x6eu8, 0x6fu8, 0x64u8, 0x65u8, 0x73u8] || name == seq![0x69u8, 0x70u8, 0x36u8, 0x2du8, 0x61u8, 0x6cu8, 0x6cu8, 0x72u8, 0x6fu8, 0x75u8, 0x74u8, 0x65u8, 0x72u8, 0x73u8]),
{
    assert(ascii(seq!['l', 'o', 'c', 'a', 'l', 'h', 'o', 's', 't']) =~= seq![0x6cu8, 0x6fu8, 0x63u8, 0x61u8, 0x6cu8, 0x68u8, 0x6fu8, 0x73u8, 0x74u8]);
    assert(ascii(seq!['i', 'p', '6', '-', 'l', 'o', 'c', 'a', 'l', 'h', 'o', 's', 't']) =~= seq![0x69u8, 0x70u8, 0x36u8, 0x2du8, 0x6cu8, 0x6fu8, 0x63u8, 0x61u8, 0x6cu8, 0x68u8, 0x6fu8, 0x73u8, 0x74u8]);
    assert(ascii(seq!['i', 'p', '6', '-', 'l', 'o', 'o', 'p', 'b', 'a', 'c', 'k']) =~= seq![0x69u8, 0x70u8, 0x36u8, 0x2du8, 0x6cu8, 0x6fu8, 0x6fu8, 0x70u8, 0x62u8, 0x61u8, 0x63u8, 0x6bu8]);
    assert(ascii(seq!['i', 'p', '6', '-', 'a', 'l', 'l', 'n', 'o', 'd', 'e', 's']) =~= seq![0x69u8, 0x70u8, 0x36u8, 0x2du8, 0x61u8, 0x6cu8, 0x6cu8, 0x6eu8, 0x6fu8, 0x64u8, 0x65u8, 0x73u8]);
    assert(ascii(seq!['i', 'p', '6', '-', 'a', 'l', 'l', 'r', 'o', 'u', 't', 'e', 'r', 's']) =~= seq![0x69u8, 0x70u8, 0x36u8, 0x2du8, 0x61u8, 0x6cu8, 0x6cu8, 0x72u8, 0x6fu8, 0x75u8, 0x74u8, 0x65u8, 0x72u8, 0x73u8]);
}

} // verus!
