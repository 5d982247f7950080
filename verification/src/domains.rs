//! The DNS learner's reverse-resolution table: a map from IP address to the
//! hostname most recently seen for it in a snooped DNS answer.

use crate::addrs::IpAddress;
use vstd::prelude::*;

verus! {

/// Last-writer-wins map denoted by a sequence of insertions.
pub open spec fn map_of(s: Seq<(IpAddress, String)>) -> Map<IpAddress, Seq<char>>
    decreases s.len(),
{
    if s.len() == 0 {
        Map::empty()
    } else {
        map_of(s.drop_last()).insert(s.last().0, s.last().1@)
    }
}

/// The accumulated IP-to-hostname table.  Entries accumulate for the
/// process lifetime; a later insertion for the same address wins.
pub struct Resolved {
    entries: Vec<(IpAddress, String)>,
}

impl View for Resolved {
    type V = Map<IpAddress, Seq<char>>;

    closed spec fn view(&self) -> Map<IpAddress, Seq<char>> {
        map_of(self.entries@)
    }
}

/// An entry whose key does not recur later in the sequence gives the map's
/// value at that key.
proof fn lemma_map_of_found(s: Seq<(IpAddress, String)>, i: int)
    requires
        0 <= i < s.len(),
        forall|j: int| i < j < s.len() ==> (#[trigger] s[j]).0 != s[i].0,
    ensures
        map_of(s).contains_key(s[i].0),
        map_of(s)[s[i].0] == s[i].1@,
    decreases s.len(),
{
    if i < s.len() - 1 {
        assert(s.drop_last()[i] == s[i]);
        lemma_map_of_found(s.drop_last(), i);
    }
}

/// A key under no entry is not in the map.
proof fn lemma_map_of_absent(s: Seq<(IpAddress, String)>, ip: IpAddress)
    requires
        forall|j: int| 0 <= j < s.len() ==> (#[trigger] s[j]).0 != ip,
    ensures
        !map_of(s).contains_key(ip),
    decreases s.len(),
{
    if s.len() > 0 {
        lemma_map_of_absent(s.drop_last(), ip);
    }
}

impl Resolved {
    /// Starts with an empty table.
    pub fn build() -> (r: Self)
        ensures
            r@ == Map::<IpAddress, Seq<char>>::empty(),
    {
        Resolved { entries: Vec::new() }
    }

    /// Looks the address up, returning the hostname most recently inserted
    /// for it.
    pub fn get(&self, ip: &IpAddress) -> (r: Option<String>)
        ensures
            match r {
                Some(name) => self@.contains_key(*ip) && name@ == self@[*ip],
                None => !self@.contains_key(*ip),
            },
    {
        let n = self.entries.len();
        let mut i: usize = n;
        while i > 0
            invariant
                n == self.entries@.len(),
                i <= n,
                forall|j: int| i <= j < n ==> (#[trigger] self.entries@[j]).0 != *ip,
            decreases i,
        {
            i = i - 1;
            if self.entries[i].0 == *ip {
                proof {
                    lemma_map_of_found(self.entries@, i as int);
                }
                return Some(self.entries[i].1.clone());
            }
        }
        proof {
            lemma_map_of_absent(self.entries@, *ip);
        }
        None
    }

    /// Records that `ip` resolves to `name`, superseding any earlier entry.
    pub fn insert(&mut self, ip: IpAddress, name: String)
        ensures
            final(self)@ == old(self)@.insert(ip, name@),
    {
        self.entries.push((ip, name));
        proof {
            assert(self.entries@.drop_last() =~= old(self).entries@);
        }
    }
}

/// One answer of a snooped DNS response: the owner name and the record
/// data, with only address records carried in full.
#[derive(Debug, Clone)]
pub struct DnsAnswer {
    pub name: String,
    pub data: DnsData,
}

/// The data of one answer: an IPv4 or IPv6 address as octets, or any other
/// record type.
#[derive(Debug, Clone, Copy)]
pub enum DnsData {
    Ipv4([u8; 4]),
    Ipv6([u8; 16]),
    Other,
}

/// What the DNS wire parser makes of a payload: a function of the bytes
/// alone.
pub uninterp spec fn dns_answers(b: Seq<u8>) -> Option<Seq<DnsAnswer>>;

/// Relies on simple_dns Packet::parse: whether a payload parses and which
/// answers it holds depend on the bytes alone.  A and AAAA record data come
/// back as big-endian octets, every other record type as `Other`.
#[verifier::external_body]
fn parse_dns_answers(bytes: &[u8]) -> (r: Option<Vec<DnsAnswer>>)
    ensures
        match r {
            Some(v) => dns_answers(bytes@) == Some(v@),
            None => dns_answers(bytes@) is None,
        },
{
    let p = match simple_dns::Packet::parse(bytes) { Ok(p) => p, Err(_) => return None };
    Some(p.answers.iter().map(|rr| DnsAnswer {
        name: rr.name.to_string(),
        data: match &rr.rdata {
            simple_dns::rdata::RData::A(a) => DnsData::Ipv4(a.address.to_be_bytes()),
            simple_dns::rdata::RData::AAAA(a) => DnsData::Ipv6(a.address.to_be_bytes()),
            _ => DnsData::Other,
        },
    }).collect())
}

/// The learner table after recording the answers in order: each A or AAAA
/// answer maps its address to its owner name, a later answer for the same
/// address winning.
pub open spec fn absorb_spec(m: Map<IpAddress, Seq<char>>, answers: Seq<DnsAnswer>) -> Map<
    IpAddress,
    Seq<char>,
>
    decreases answers.len(),
{
    if answers.len() == 0 {
        m
    } else {
        let m2 = match answers[0].data {
            DnsData::Ipv4(o) => m.insert(IpAddress::V4(o), answers[0].name@),
            DnsData::Ipv6(o) => m.insert(IpAddress::V6(o), answers[0].name@),
            DnsData::Other => m,
        };
        absorb_spec(m2, answers.skip(1))
    }
}

impl Resolved {
    /// Records every address answer in order; see [`absorb_spec`].
    pub fn absorb_answers(&mut self, answers: &Vec<DnsAnswer>)
        ensures
            final(self)@ == absorb_spec(old(self)@, answers@),
    {
        let n = answers.len();
        let mut i: usize = 0;
        proof {
            assert(answers@.skip(0) =~= answers@);
        }
        while i < n
            invariant
                i <= n,
                n == answers@.len(),
                absorb_spec(old(self)@, answers@) == absorb_spec(
                    self@,
                    answers@.skip(i as int),
                ),
            decreases n - i,
        {
            proof {
                assert(answers@.skip(i as int)[0] == answers@[i as int]);
                assert(answers@.skip(i as int).skip(1) =~= answers@.skip(i as int + 1));
            }
            match &answers[i].data {
                DnsData::Ipv4(o) => {
                    self.insert(IpAddress::V4(*o), answers[i].name.clone());
                },
                DnsData::Ipv6(o) => {
                    self.insert(IpAddress::V6(*o), answers[i].name.clone());
                },
                DnsData::Other => {},
            }
            i = i + 1;
        }
        proof {
            assert(answers@.skip(n as int) =~= Seq::<DnsAnswer>::empty());
        }
    }

    /// Snoops one UDP/53 response frame: the DNS payload sits at byte 42
    /// (Ethernet, IPv4 and UDP headers), and every address answer is
    /// recorded.  A short or malformed frame is reported as `false` and
    /// changes nothing.
    pub fn update_from_dns(&mut self, packet: &[u8]) -> (r: bool)
        ensures
            packet@.len() >= 42 ==> match dns_answers(packet@.skip(42)) {
                Some(ans) => r && final(self)@ == absorb_spec(old(self)@, ans),
                None => !r && final(self)@ == old(self)@,
            },
            packet@.len() < 42 ==> !r && final(self)@ == old(self)@,
    {
        if packet.len() < 42 {
            return false;
        }
        let payload = vstd::slice::slice_subrange(packet, 42, packet.len());
        match parse_dns_answers(payload) {
            Some(ans) => {
                self.absorb_answers(&ans);
                true
            },
            None => false,
        }
    }
}

} // verus!
