//! Value types for the endpoint addresses the policy engine compares:
//! 6-byte MAC addresses and IPv4/IPv6 addresses held as plain octets.

use crate::errors::ConfigError;
use vstd::prelude::*;
use vstd::string::{StrSliceExecFns, StringExecFns};

verus! {

broadcast use vstd::array::group_array_axioms;

/// Compares two byte slices for equality, element by element.
pub(crate) fn bytes_eq(a: &[u8], b: &[u8]) -> (r: bool)
    ensures
        r == (a@ == b@),
{
    if a.len() != b.len() {
        proof {
            assert(a@.len() != b@.len());
        }
        return false;
    }
    let n = a.len();
    let mut i: usize = 0;
    while i < n
        invariant
            n == a@.len(),
            n == b@.len(),
            i <= n,
            forall|j: int| 0 <= j < i ==> a@[j] == b@[j],
        decreases n - i,
    {
        if a[i] != b[i] {
            return false;
        }
        i = i + 1;
    }
    proof {
        assert(a@ =~= b@);
    }
    true
}

/// A MAC address: an opaque 6-byte value compared by value.
#[derive(Debug, Clone, Copy, Eq)]
pub struct MacAddr {
    octets: [u8; 6],
}

impl View for MacAddr {
    type V = Seq<u8>;

    closed spec fn view(&self) -> Seq<u8> {
        self.octets@
    }
}

impl PartialEq for MacAddr {
    fn eq(&self, other: &Self) -> (r: bool) {
        let r = bytes_eq(self.octets.as_slice(), other.octets.as_slice());
        proof {
            if self@ == other@ {
                assert(self.octets =~= other.octets);
            }
        }
        r
    }
}

impl vstd::std_specs::cmp::PartialEqSpecImpl for MacAddr {
    open spec fn obeys_eq_spec() -> bool {
        true
    }

    open spec fn eq_spec(&self, other: &Self) -> bool {
        self@ == other@
    }
}

impl MacAddr {
    /// Wraps six octets as a MAC address.
    pub fn build(list: &[u8; 6]) -> (r: Self)
        ensures
            r@ == list@,
            r == mac_of(list@),
    {
        let r = MacAddr { octets: *list };
        proof {
            assert(mac_of(list@)@ =~= list@);
            lemma_mac_eq(r, mac_of(list@));
        }
        r
    }
}

/// The MAC address holding the first six octets of `o`.
pub closed spec fn mac_of(o: Seq<u8>) -> MacAddr {
    MacAddr { octets: [o[0], o[1], o[2], o[3], o[4], o[5]] }
}

/// `mac_of` carries its octets.
pub broadcast proof fn lemma_mac_of_view(o: Seq<u8>)
    requires
        o.len() == 6,
    ensures
        (#[trigger] mac_of(o))@ == o,
{
    assert(mac_of(o)@ =~= o);
}

/// MAC addresses with the same octets are the same value.
pub broadcast proof fn lemma_mac_eq(a: MacAddr, b: MacAddr)
    requires
        a@ == b@,
    ensures
        #![trigger a@, b@]
        a == b,
{
    assert(a.octets =~= b.octets);
}

/// An IP address held as plain octets, big-endian as on the wire.
#[derive(Debug, Clone, Copy, Eq)]
pub enum IpAddress {
    V4([u8; 4]),
    V6([u8; 16]),
}

impl PartialEq for IpAddress {
    fn eq(&self, other: &Self) -> (r: bool) {
        let r = match (self, other) {
            (IpAddress::V4(a), IpAddress::V4(b)) => bytes_eq(a.as_slice(), b.as_slice()),
            (IpAddress::V6(a), IpAddress::V6(b)) => bytes_eq(a.as_slice(), b.as_slice()),
            _ => false,
        };
        proof {
            match (self, other) {
                (IpAddress::V4(a), IpAddress::V4(b)) => {
                    if a@ == b@ {
                        assert(*a =~= *b);
                    }
                },
                (IpAddress::V6(a), IpAddress::V6(b)) => {
                    if a@ == b@ {
                        assert(*a =~= *b);
                    }
                },
                _ => {},
            }
        }
        r
    }
}

impl vstd::std_specs::cmp::PartialEqSpecImpl for IpAddress {
    open spec fn obeys_eq_spec() -> bool {
        true
    }

    open spec fn eq_spec(&self, other: &Self) -> bool {
        *self == *other
    }
}

/// The value of one hex digit character, case-insensitive, or -1.
pub open spec fn hex_val(c: char) -> int {
    let u = c as u32;
    if 48 <= u <= 57 {
        u - 48
    } else if 97 <= u <= 102 {
        u - 87
    } else if 65 <= u <= 70 {
        u - 55
    } else {
        -1
    }
}

/// A textual MAC address: exactly six two-hex-digit octets separated by
/// colons.
pub open spec fn mac_str_valid(s: Seq<char>) -> bool {
    &&& s.len() == 17
    &&& s[2] == ':'
    &&& s[5] == ':'
    &&& s[8] == ':'
    &&& s[11] == ':'
    &&& s[14] == ':'
    &&& hex_val(s[0]) >= 0
    &&& hex_val(s[1]) >= 0
    &&& hex_val(s[3]) >= 0
    &&& hex_val(s[4]) >= 0
    &&& hex_val(s[6]) >= 0
    &&& hex_val(s[7]) >= 0
    &&& hex_val(s[9]) >= 0
    &&& hex_val(s[10]) >= 0
    &&& hex_val(s[12]) >= 0
    &&& hex_val(s[13]) >= 0
    &&& hex_val(s[15]) >= 0
    &&& hex_val(s[16]) >= 0
}

/// The six octets denoted by a valid textual MAC address.
pub open spec fn mac_octets_spec(s: Seq<char>) -> Seq<u8> {
    Seq::new(6, |k: int| (hex_val(s[3 * k]) * 16 + hex_val(s[3 * k + 1])) as u8)
}

/// The value of one hex digit character, or -1 for any other character.
fn hex_val_exec(c: char) -> (r: i8)
    ensures
        r as int == hex_val(c),
{
    let u = c as u32;
    if 48 <= u && u <= 57 {
        (u - 48) as i8
    } else if 97 <= u && u <= 102 {
        (u - 87) as i8
    } else if 65 <= u && u <= 70 {
        (u - 55) as i8
    } else {
        -1
    }
}

impl MacAddr {
    /// Parses `hh:hh:hh:hh:hh:hh` (case-insensitive); any other form fails
    /// with `InvalidMac`.
    pub fn try_from(value: &str) -> (r: Result<MacAddr, ConfigError>)
        ensures
            mac_str_valid(value@) ==> r is Ok && r->Ok_0@ == mac_octets_spec(value@),
            !mac_str_valid(value@) ==> r is Err && r->Err_0 is InvalidMac,
    {
        if value.unicode_len() != 17 {
            return Err(ConfigError::InvalidMac(String::from_str(value)));
        }
        if !(value.get_char(2) == ':' && value.get_char(5) == ':' && value.get_char(8) == ':'
            && value.get_char(11) == ':' && value.get_char(14) == ':') {
            return Err(ConfigError::InvalidMac(String::from_str(value)));
        }
        let h0 = hex_val_exec(value.get_char(0));
        let l0 = hex_val_exec(value.get_char(1));
        let h1 = hex_val_exec(value.get_char(3));
        let l1 = hex_val_exec(value.get_char(4));
        let h2 = hex_val_exec(value.get_char(6));
        let l2 = hex_val_exec(value.get_char(7));
        let h3 = hex_val_exec(value.get_char(9));
        let l3 = hex_val_exec(value.get_char(10));
        let h4 = hex_val_exec(value.get_char(12));
        let l4 = hex_val_exec(value.get_char(13));
        let h5 = hex_val_exec(value.get_char(15));
        let l5 = hex_val_exec(value.get_char(16));
        if h0 < 0 || l0 < 0 || h1 < 0 || l1 < 0 || h2 < 0 || l2 < 0 || h3 < 0 || l3 < 0 || h4 < 0
            || l4 < 0 || h5 < 0 || l5 < 0 {
            return Err(ConfigError::InvalidMac(String::from_str(value)));
        }
        let r = MacAddr {
            octets: [
                (h0 as u8) * 16 + (l0 as u8),
                (h1 as u8) * 16 + (l1 as u8),
                (h2 as u8) * 16 + (l2 as u8),
                (h3 as u8) * 16 + (l3 as u8),
                (h4 as u8) * 16 + (l4 as u8),
                (h5 as u8) * 16 + (l5 as u8),
            ],
        };
        proof {
            assert(mac_str_valid(value@));
            let m = mac_octets_spec(value@);
            assert(r@[0] == m[0]);
            assert(r@[1] == m[1]);
            assert(r@[2] == m[2]);
            assert(r@[3] == m[3]);
            assert(r@[4] == m[4]);
            assert(r@[5] == m[5]);
            assert(r@ =~= m);
        }
        Ok(r)
    }
}

/// The split of `s` at every `sep`, scanning from position `i` with the
/// current field starting at `start`.
pub open spec fn split_from(s: Seq<char>, sep: char, i: int, start: int) -> Seq<Seq<char>>
    decreases s.len() - i,
{
    if i < start || i >= s.len() {
        seq![s.subrange(start, s.len() as int)]
    } else if s[i] == sep {
        seq![s.subrange(start, i)] + split_from(s, sep, i + 1, i + 1)
    } else {
        split_from(s, sep, i + 1, start)
    }
}

/// The fields of `s` separated by `sep`; empty fields are kept.
pub open spec fn split_sep(s: Seq<char>, sep: char) -> Seq<Seq<char>> {
    split_from(s, sep, 0, 0)
}

/// Splits the characters at every separator, returning the field
/// boundaries.
fn split_ranges(v: &Vec<char>, sep: char) -> (r: Vec<(usize, usize)>)
    ensures
        r@.len() == split_sep(v@, sep).len(),
        forall|k: int|
            0 <= k < r@.len() ==> (#[trigger] r@[k]).0 <= r@[k].1 <= v@.len() && v@.subrange(
                r@[k].0 as int,
                r@[k].1 as int,
            ) == split_sep(v@, sep)[k],
{
    let n = v.len();
    let mut r: Vec<(usize, usize)> = Vec::new();
    let ghost mut done: Seq<Seq<char>> = Seq::empty();
    let mut start: usize = 0;
    let mut i: usize = 0;
    while i < n
        invariant
            start <= i <= n,
            n == v@.len(),
            done.len() == r@.len(),
            split_sep(v@, sep) == done + split_from(v@, sep, i as int, start as int),
            forall|k: int|
                0 <= k < r@.len() ==> (#[trigger] r@[k]).0 <= r@[k].1 <= v@.len() && v@.subrange(
                    r@[k].0 as int,
                    r@[k].1 as int,
                ) == done[k],
        decreases n - i,
    {
        if v[i] == sep {
            r.push((start, i));
            proof {
                done = done.push(v@.subrange(start as int, i as int));
                assert(split_sep(v@, sep) == done + split_from(v@, sep, i as int + 1, i as int + 1))
                    by {
                    assert((done.drop_last() + (seq![v@.subrange(start as int, i as int)]
                        + split_from(v@, sep, i as int + 1, i as int + 1))) =~= (done + split_from(
                        v@,
                        sep,
                        i as int + 1,
                        i as int + 1,
                    )));
                }
            }
            start = i + 1;
        }
        i = i + 1;
    }
    r.push((start, n));
    proof {
        done = done.push(v@.subrange(start as int, n as int));
        assert(split_from(v@, sep, n as int, start as int) == seq![
            v@.subrange(start as int, n as int),
        ]);
        assert(split_sep(v@, sep) =~= done);
    }
    r
}

/// A run of one to three decimal digits.
pub open spec fn dec_field_ok(p: Seq<char>) -> bool {
    1 <= p.len() <= 3 && forall|i: int| 0 <= i < p.len() ==> 0 <= hex_val(#[trigger] p[i]) < 10
}

/// The value of a run of decimal digits.
pub open spec fn dec_seq_val(p: Seq<char>) -> int
    decreases p.len(),
{
    if p.len() == 0 {
        0
    } else {
        dec_seq_val(p.drop_last()) * 10 + hex_val(p.last())
    }
}

/// A run of one to four hex digits.
pub open spec fn hex_field_ok(p: Seq<char>) -> bool {
    1 <= p.len() <= 4 && forall|i: int| 0 <= i < p.len() ==> hex_val(#[trigger] p[i]) >= 0
}

/// The value of a run of hex digits.
pub open spec fn hex_seq_val(p: Seq<char>) -> int
    decreases p.len(),
{
    if p.len() == 0 {
        0
    } else {
        hex_seq_val(p.drop_last()) * 16 + hex_val(p.last())
    }
}

/// One field of a dotted quad: one to three decimal digits valued at most
/// 255.
pub open spec fn ipv4_field_ok(p: Seq<char>) -> bool {
    dec_field_ok(p) && dec_seq_val(p) <= 255
}

/// Parses one dotted-quad field of the character range `[a, b)`.
fn parse_dec_field(v: &Vec<char>, a: usize, b: usize) -> (r: Option<u8>)
    requires
        a <= b <= v@.len(),
    ensures
        ipv4_field_ok(v@.subrange(a as int, b as int)) ==> (r matches Some(x) && x as int
            == dec_seq_val(v@.subrange(a as int, b as int))),
        !ipv4_field_ok(v@.subrange(a as int, b as int)) ==> r is None,
{
    let ghost p = v@.subrange(a as int, b as int);
    if b - a < 1 || b - a > 3 {
        return None;
    }
    let mut val: u16 = 0;
    let mut j: usize = a;
    while j < b
        invariant
            a <= j <= b <= v@.len(),
            b - a <= 3,
            p == v@.subrange(a as int, b as int),
            val as int == dec_seq_val(v@.subrange(a as int, j as int)),
            val < 1000,
            forall|i: int| 0 <= i < j - a ==> 0 <= hex_val(#[trigger] p[i]) < 10,
        decreases b - j,
    {
        let d = hex_val_exec(v[j]);
        if d < 0 || d > 9 {
            proof {
                assert(p[j - a] == v@[j as int]);
            }
            return None;
        }
        proof {
            assert(v@.subrange(a as int, j as int + 1).drop_last() =~= v@.subrange(
                a as int,
                j as int,
            ));
            assert(v@.subrange(a as int, j as int + 1).last() == v@[j as int]);
            assert(p[j - a] == v@[j as int]);
            assert(dec_seq_val(v@.subrange(a as int, j as int)) < 100) by {
                assert(forall|i: int|
                    0 <= i < j - a ==> 0 <= hex_val(
                        #[trigger] v@.subrange(a as int, j as int)[i],
                    ) < 10);
                lemma_dec_seq_val_bound(v@.subrange(a as int, j as int));
            }
        }
        val = val * 10 + (d as u16);
        j = j + 1;
    }
    proof {
        assert(v@.subrange(a as int, b as int) =~= p);
    }
    if val > 255 {
        return None;
    }
    Some(val as u8)
}

/// Parses one hex group of the character range `[a, b)`.
fn parse_hex_field(v: &Vec<char>, a: usize, b: usize) -> (r: Option<u16>)
    requires
        a <= b <= v@.len(),
    ensures
        hex_field_ok(v@.subrange(a as int, b as int)) ==> (r matches Some(x) && x as int
            == hex_seq_val(v@.subrange(a as int, b as int))),
        !hex_field_ok(v@.subrange(a as int, b as int)) ==> r is None,
{
    let ghost p = v@.subrange(a as int, b as int);
    if b - a < 1 || b - a > 4 {
        return None;
    }
    let mut val: u16 = 0;
    let mut j: usize = a;
    while j < b
        invariant
            a <= j <= b <= v@.len(),
            b - a <= 4,
            p == v@.subrange(a as int, b as int),
            val as int == hex_seq_val(v@.subrange(a as int, j as int)),
            forall|i: int| 0 <= i < j - a ==> hex_val(#[trigger] p[i]) >= 0,
        decreases b - j,
    {
        let d = hex_val_exec(v[j]);
        if d < 0 {
            proof {
                assert(p[j - a] == v@[j as int]);
            }
            return None;
        }
        proof {
            assert(v@.subrange(a as int, j as int + 1).drop_last() =~= v@.subrange(
                a as int,
                j as int,
            ));
            assert(v@.subrange(a as int, j as int + 1).last() == v@[j as int]);
            assert(p[j - a] == v@[j as int]);
            assert(hex_seq_val(v@.subrange(a as int, j as int)) < 0x1000) by {
                assert(forall|i: int|
                    0 <= i < j - a ==> hex_val(#[trigger] v@.subrange(a as int, j as int)[i])
                        >= 0);
                lemma_hex_seq_val_bound(v@.subrange(a as int, j as int));
            }
        }
        val = val * 16 + (d as u16);
        j = j + 1;
    }
    proof {
        assert(v@.subrange(a as int, b as int) =~= p);
    }
    Some(val)
}

/// Bounds for short runs of decimal digits.
proof fn lemma_dec_seq_val_bound(p: Seq<char>)
    requires
        forall|i: int| 0 <= i < p.len() ==> 0 <= hex_val(#[trigger] p[i]) < 10,
    ensures
        0 <= dec_seq_val(p),
        p.len() <= 1 ==> dec_seq_val(p) < 10,
        p.len() <= 2 ==> dec_seq_val(p) < 100,
        p.len() <= 3 ==> dec_seq_val(p) < 1000,
    decreases p.len(),
{
    if p.len() > 0 {
        assert(forall|i: int|
            0 <= i < p.len() - 1 ==> 0 <= hex_val(#[trigger] p.drop_last()[i]) < 10);
        lemma_dec_seq_val_bound(p.drop_last());
        assert(hex_val(p.last()) <= 9);
    }
}

/// Bounds for short runs of hex digits.
proof fn lemma_hex_seq_val_bound(p: Seq<char>)
    requires
        forall|i: int| 0 <= i < p.len() ==> hex_val(#[trigger] p[i]) >= 0,
    ensures
        0 <= hex_seq_val(p),
        p.len() <= 1 ==> hex_seq_val(p) < 16,
        p.len() <= 2 ==> hex_seq_val(p) < 0x100,
        p.len() <= 3 ==> hex_seq_val(p) < 0x1000,
        p.len() <= 4 ==> hex_seq_val(p) < 0x10000,
    decreases p.len(),
{
    if p.len() > 0 {
        assert(forall|i: int|
            0 <= i < p.len() - 1 ==> hex_val(#[trigger] p.drop_last()[i]) >= 0);
        lemma_hex_seq_val_bound(p.drop_last());
        assert(hex_val(p.last()) <= 15);
    }
}

/// The dotted-quad IPv4 address denoted by `s`, if any: four fields of one
/// to three decimal digits, each at most 255.
pub open spec fn ipv4_parse_spec(s: Seq<char>) -> Option<IpAddress> {
    let parts = split_sep(s, '.');
    if parts.len() == 4 && ipv4_field_ok(parts[0]) && ipv4_field_ok(parts[1]) && ipv4_field_ok(
        parts[2],
    ) && ipv4_field_ok(parts[3]) {
        Some(
            IpAddress::V4(
                [
                    dec_seq_val(parts[0]) as u8,
                    dec_seq_val(parts[1]) as u8,
                    dec_seq_val(parts[2]) as u8,
                    dec_seq_val(parts[3]) as u8,
                ],
            ),
        )
    } else {
        None
    }
}

/// Every field is a run of one to four hex digits.
pub open spec fn all_hex_fields(parts: Seq<Seq<char>>) -> bool {
    forall|k: int| 0 <= k < parts.len() ==> hex_field_ok(#[trigger] parts[k])
}

/// The group values of a sequence of hex fields.
pub open spec fn group_vals(parts: Seq<Seq<char>>) -> Seq<int> {
    parts.map(|k: int, p: Seq<char>| hex_seq_val(p))
}

/// `n` zero group values.
pub open spec fn zero_groups(n: int) -> Seq<int> {
    Seq::new(n as nat, |k: int| 0int)
}

/// The index of the first empty field, or -1.
pub open spec fn first_empty(parts: Seq<Seq<char>>) -> int
    decreases parts.len(),
{
    if parts.len() == 0 {
        -1
    } else if parts[0].len() == 0 {
        0
    } else {
        let r = first_empty(parts.skip(1));
        if r == -1 {
            -1
        } else {
            1 + r
        }
    }
}

/// The eight 16-bit group values denoted by the colon-separated fields of
/// an IPv6 literal: either eight hex groups, or a single `::` (appearing as
/// adjacent empty fields) standing for enough zero groups, at the start, at
/// the end, in the middle, or alone.
pub open spec fn ipv6_groups_spec(parts: Seq<Seq<char>>) -> Option<Seq<int>> {
    let i = first_empty(parts);
    if parts.len() == 8 && all_hex_fields(parts) {
        Some(group_vals(parts))
    } else if parts.len() == 3 && parts[0].len() == 0 && parts[1].len() == 0 && parts[2].len()
        == 0 {
        Some(zero_groups(8))
    } else if 3 <= parts.len() <= 9 && parts[0].len() == 0 && parts[1].len() == 0
        && all_hex_fields(parts.skip(2)) {
        Some(zero_groups(10 - parts.len()) + group_vals(parts.skip(2)))
    } else if 3 <= parts.len() <= 9 && parts[parts.len() - 1].len() == 0 && parts[parts.len()
        - 2].len() == 0 && all_hex_fields(parts.take(parts.len() - 2)) {
        Some(group_vals(parts.take(parts.len() - 2)) + zero_groups(10 - parts.len()))
    } else if 3 <= parts.len() <= 8 && 1 <= i <= parts.len() - 2 && (forall|j: int|
        0 <= j < parts.len() && j != i ==> (#[trigger] parts[j]).len() > 0) && all_hex_fields(
        parts.take(i),
    ) && all_hex_fields(parts.skip(i + 1)) {
        Some(group_vals(parts.take(i)) + zero_groups(9 - parts.len()) + group_vals(parts.skip(i + 1)))
    } else {
        None
    }
}

/// The IPv6 address denoted by `s`, if any, as sixteen octets, big-endian
/// within each group.
pub open spec fn ipv6_parse_spec(s: Seq<char>) -> Option<IpAddress> {
    match ipv6_groups_spec(split_sep(s, ':')) {
        Some(g) => Some(
            IpAddress::V6(
                [
                    (g[0] / 256) as u8,
                    (g[0] % 256) as u8,
                    (g[1] / 256) as u8,
                    (g[1] % 256) as u8,
                    (g[2] / 256) as u8,
                    (g[2] % 256) as u8,
                    (g[3] / 256) as u8,
                    (g[3] % 256) as u8,
                    (g[4] / 256) as u8,
                    (g[4] % 256) as u8,
                    (g[5] / 256) as u8,
                    (g[5] % 256) as u8,
                    (g[6] / 256) as u8,
                    (g[6] % 256) as u8,
                    (g[7] / 256) as u8,
                    (g[7] % 256) as u8,
                ],
            ),
        ),
        None => None,
    }
}

/// The IP address denoted by `s`: a dotted quad if it parses as one, else
/// an IPv6 literal.
pub open spec fn ip_parse_spec(s: Seq<char>) -> Option<IpAddress> {
    match ipv4_parse_spec(s) {
        Some(ip) => Some(ip),
        None => ipv6_parse_spec(s),
    }
}

/// The characters of a string, one by one.
fn chars_of(s: &str) -> (r: Vec<char>)
    ensures
        r@ == s@,
{
    let n = s.unicode_len();
    let mut r: Vec<char> = Vec::new();
    let mut i: usize = 0;
    while i < n
        invariant
            i <= n,
            n == s@.len(),
            r@ == s@.take(i as int),
        decreases n - i,
    {
        r.push(s.get_char(i));
        proof {
            assert(s@.take(i + 1 as int) =~= s@.take(i as int).push(s@[i as int]));
        }
        i = i + 1;
    }
    proof {
        assert(s@.take(n as int) =~= s@);
    }
    r
}

/// Parses the hex fields `[from, to)` of a field list, or reports that one
/// of them is not a hex group.
fn parse_hex_fields(v: &Vec<char>, ranges: &Vec<(usize, usize)>, from: usize, to: usize) -> (r:
    Result<Vec<u16>, usize>)
    requires
        from <= to <= ranges@.len(),
        forall|k: int| 0 <= k < ranges@.len() ==> (#[trigger] ranges@[k]).0 <= ranges@[k].1
            <= v@.len(),
    ensures
        match r {
            Ok(g) => g@.len() == to - from && forall|k: int|
                from <= k < to ==> hex_field_ok(
                    v@.subrange((#[trigger] ranges@[k]).0 as int, ranges@[k].1 as int),
                ) && g@[k - from] as int == hex_seq_val(
                    v@.subrange(ranges@[k].0 as int, ranges@[k].1 as int),
                ),
            Err(k) => from <= k < to && !hex_field_ok(
                v@.subrange(ranges@[k as int].0 as int, ranges@[k as int].1 as int),
            ),
        },
{
    let mut g: Vec<u16> = Vec::new();
    let mut k: usize = from;
    while k < to
        invariant
            from <= k <= to <= ranges@.len(),
            g@.len() == k - from,
            forall|k2: int| 0 <= k2 < ranges@.len() ==> (#[trigger] ranges@[k2]).0
                <= ranges@[k2].1 <= v@.len(),
            forall|k2: int|
                from <= k2 < k ==> hex_field_ok(
                    v@.subrange((#[trigger] ranges@[k2]).0 as int, ranges@[k2].1 as int),
                ) && g@[k2 - from] as int == hex_seq_val(
                    v@.subrange(ranges@[k2].0 as int, ranges@[k2].1 as int),
                ),
        decreases to - k,
    {
        let (a, b) = ranges[k];
        match parse_hex_field(v, a, b) {
            Some(x) => {
                g.push(x);
            },
            None => {
                return Err(k);
            },
        }
        k = k + 1;
    }
    Ok(g)
}

impl IpAddress {
    /// Parses an IP literal: a dotted quad, else an IPv6 literal with
    /// optional `::` compression; anything else fails with
    /// `FailedToParseAsIp`.
    pub fn parse(s: &str) -> (r: Result<IpAddress, ConfigError>)
        ensures
            ip_parse_spec(s@) matches Some(ip) ==> r == Ok::<IpAddress, ConfigError>(ip),
            ip_parse_spec(s@) is None ==> (r matches Err(e) && e is FailedToParseAsIp),
    {
        let chars = chars_of(s);
        let dots = split_ranges(&chars, '.');
        if dots.len() == 4 {
            let (a0, b0) = dots[0];
            let (a1, b1) = dots[1];
            let (a2, b2) = dots[2];
            let (a3, b3) = dots[3];
            let f0 = parse_dec_field(&chars, a0, b0);
            let f1 = parse_dec_field(&chars, a1, b1);
            let f2 = parse_dec_field(&chars, a2, b2);
            let f3 = parse_dec_field(&chars, a3, b3);
            match (f0, f1, f2, f3) {
                (Some(x0), Some(x1), Some(x2), Some(x3)) => {
                    let ghost parts = split_sep(s@, '.');
                    proof {
                        assert(ipv4_field_ok(parts[0]) && x0 as int == dec_seq_val(parts[0]));
                        assert(ipv4_field_ok(parts[1]) && x1 as int == dec_seq_val(parts[1]));
                        assert(ipv4_field_ok(parts[2]) && x2 as int == dec_seq_val(parts[2]));
                        assert(ipv4_field_ok(parts[3]) && x3 as int == dec_seq_val(parts[3]));
                    }
                    return Ok(IpAddress::V4([x0, x1, x2, x3]));
                },
                _ => {},
            }
        }
        Self::parse_v6(&chars, s)
    }

    /// Parses the IPv6 alternative; see [`ipv6_parse_spec`].
    #[verifier::rlimit(100)]
    fn parse_v6(chars: &Vec<char>, s: &str) -> (r: Result<IpAddress, ConfigError>)
        requires
            chars@ == s@,
            ipv4_parse_spec(s@) is None,
        ensures
            ipv6_parse_spec(s@) matches Some(ip) ==> r == Ok::<IpAddress, ConfigError>(ip),
            ipv6_parse_spec(s@) is None ==> (r matches Err(e) && e is FailedToParseAsIp),
    {
        let cols = split_ranges(chars, ':');
        let n = cols.len();
        let ghost parts = split_sep(chars@, ':');
        proof {
            assert(parts.len() == n);
            assert forall|k: int| 0 <= k < n implies (#[trigger] parts[k]).len() == cols@[k].1
                - cols@[k].0 by {
                assert(parts[k] == chars@.subrange(cols@[k].0 as int, cols@[k].1 as int));
            }
        }
        let mut groups: Vec<u16> = Vec::new();
        if n == 8 {
            match parse_hex_fields(chars, &cols, 0, 8) {
                Ok(g) => {
                    proof {
                        assert forall|k: int| 0 <= k < 8 implies hex_field_ok(
                            #[trigger] parts[k],
                        ) && g@[k] as int == hex_seq_val(parts[k]) by {
                            assert(parts[k] == chars@.subrange(
                                cols@[k].0 as int,
                                cols@[k].1 as int,
                            ));
                        }
                        assert(all_hex_fields(parts));
                        assert forall|k: int| 0 <= k < 8 implies (#[trigger] g@[k]) as int
                            == group_vals(parts)[k] by {}
                        assert(ipv6_groups_spec(parts) == Some(group_vals(parts)));
                    }
                    return Ok(Self::groups_to_ip(&g, Ghost(group_vals(parts))));
                },
                Err(bad) => {
                    proof {
                        assert(parts[bad as int] == chars@.subrange(
                            cols@[bad as int].0 as int,
                            cols@[bad as int].1 as int,
                        ));
                        assert(!hex_field_ok(parts[bad as int]));
                        assert(!all_hex_fields(parts));
                    }
                },
            }
        }
        let e01 = if n >= 2 {
            let (a0, b0) = cols[0];
            let (a1, b1) = cols[1];
            b0 == a0 && b1 == a1
        } else {
            false
        };
        let elast2 = if n >= 2 {
            let (a0, b0) = cols[n - 1];
            let (a1, b1) = cols[n - 2];
            b0 == a0 && b1 == a1
        } else {
            false
        };
        proof {
            if n >= 2 {
                assert(e01 == (parts[0].len() == 0 && parts[1].len() == 0));
                assert(elast2 == (parts[n - 1].len() == 0 && parts[n - 2].len() == 0));
            }
        }
        if n == 3 && e01 && elast2 {
            let mut k: usize = 0;
            while k < 8
                invariant
                    k <= 8,
                    groups@.len() == k,
                    forall|j: int| 0 <= j < k ==> (#[trigger] groups@[j]) == 0,
                decreases 8 - k,
            {
                groups.push(0);
                k = k + 1;
            }
            proof {
                assert(parts[0].len() == 0 && parts[1].len() == 0 && parts[2].len() == 0);
                assert(forall|j: int|
                    0 <= j < 8 ==> (#[trigger] groups@[j]) as int == zero_groups(8)[j]);
                assert(ipv6_groups_spec(parts) == Some(zero_groups(8)));
            }
            return Ok(Self::groups_to_ip(&groups, Ghost(zero_groups(8))));
        }
        if 3 <= n && n <= 9 && e01 {
            match parse_hex_fields(chars, &cols, 2, n) {
                Ok(g) => {
                    let ghost target = zero_groups(10 - parts.len()) + group_vals(parts.skip(2));
                    proof {
                        assert forall|k: int| 2 <= k < n implies hex_field_ok(
                            #[trigger] parts[k],
                        ) && g@[k - 2] as int == hex_seq_val(parts[k]) by {
                            assert(parts[k] == chars@.subrange(
                                cols@[k].0 as int,
                                cols@[k].1 as int,
                            ));
                        }
                        assert forall|j: int| 0 <= j < n - 2 implies hex_field_ok(
                            #[trigger] parts.skip(2)[j],
                        ) by {
                            assert(parts.skip(2)[j] == parts[j + 2]);
                        }
                        assert(all_hex_fields(parts.skip(2)));
                    }
                    let mut k: usize = 0;
                    let zn = 10 - n;
                    while k < zn
                        invariant
                            k <= zn,
                            groups@.len() == k,
                            forall|j: int| 0 <= j < k ==> (#[trigger] groups@[j]) == 0,
                        decreases zn - k,
                    {
                        groups.push(0);
                        k = k + 1;
                    }
                    let mut k2: usize = 0;
                    let gn = g.len();
                    while k2 < gn
                        invariant
                            k2 <= gn,
                            gn == g@.len(),
                            groups@.len() == zn + k2,
                            zn == 10 - n,
                            forall|j: int| 0 <= j < zn ==> (#[trigger] groups@[j]) == 0,
                            forall|j: int|
                                0 <= j < k2 ==> (#[trigger] groups@[zn + j]) == g@[j],
                        decreases gn - k2,
                    {
                        groups.push(g[k2]);
                        k2 = k2 + 1;
                    }
                    proof {
                        assert(parts.skip(2).len() == n - 2);
                        assert(groups@.len() == 8);
                        assert forall|j: int| 0 <= j < 8 implies (#[trigger] groups@[j]) as int
                            == target[j] by {
                            if j < 10 - n {
                                assert(target[j] == zero_groups(10 - parts.len())[j]);
                            } else {
                                let t = j - (10 - n);
                                assert(groups@[(10 - n) + t] == g@[t]);
                                assert(g@[(t + 2) - 2] as int == hex_seq_val(parts[t + 2]));
                                assert(parts.skip(2)[t] == parts[t + 2]);
                                assert(group_vals(parts.skip(2))[t] == hex_seq_val(
                                    parts.skip(2)[t],
                                ));
                                assert(target[j] == group_vals(parts.skip(2))[j - (10
                                    - parts.len())]);
                            }
                        }
                        if n == 8 {
                            assert(!hex_field_ok(parts[0]));
                        }
                        assert(ipv6_groups_spec(parts) == Some(target));
                    }
                    return Ok(Self::groups_to_ip(&groups, Ghost(target)));
                },
                Err(bad) => {
                    proof {
                        assert(parts[bad as int] == chars@.subrange(
                            cols@[bad as int].0 as int,
                            cols@[bad as int].1 as int,
                        ));
                        assert(!hex_field_ok(parts[bad as int]));
                        assert(parts[0].len() == 0);
                        assert(parts[1].len() == 0);
                        assert(!hex_field_ok(parts[0]));
                        assert(parts.skip(2)[bad - 2] == parts[bad as int]);
                        assert(!all_hex_fields(parts.skip(2)));
                        if 3 <= parts.len() <= 9 && parts[parts.len() - 1].len() == 0 && parts[
                            parts.len() - 2].len() == 0 {
                            assert(parts.take(parts.len() - 2)[0] == parts[0]);
                            assert(!all_hex_fields(parts.take(parts.len() - 2)));
                        }
                        assert(first_empty(parts) == 0) by {
                            lemma_first_empty_at(parts, 0);
                        }
                        assert(ipv6_groups_spec(parts) is None);
                    }
                    return Err(ConfigError::FailedToParseAsIp(String::from_str(s)));
                },
            }
        }
        if 3 <= n && n <= 9 && elast2 {
            match parse_hex_fields(chars, &cols, 0, n - 2) {
                Ok(g) => {
                    let ghost target = group_vals(parts.take(parts.len() - 2)) + zero_groups(
                        10 - parts.len(),
                    );
                    proof {
                        assert forall|k: int| 0 <= k < n - 2 implies hex_field_ok(
                            #[trigger] parts[k],
                        ) && g@[k] as int == hex_seq_val(parts[k]) by {
                            assert(parts[k] == chars@.subrange(
                                cols@[k].0 as int,
                                cols@[k].1 as int,
                            ));
                        }
                        assert forall|j: int| 0 <= j < n - 2 implies hex_field_ok(
                            #[trigger] parts.take(parts.len() - 2)[j],
                        ) by {
                            assert(parts.take(parts.len() - 2)[j] == parts[j]);
                        }
                        assert(all_hex_fields(parts.take(parts.len() - 2)));
                    }
                    let gn = g.len();
                    let mut k: usize = 0;
                    while k < gn
                        invariant
                            k <= gn,
                            gn == g@.len(),
                            groups@.len() == k,
                            forall|j: int| 0 <= j < k ==> (#[trigger] groups@[j]) == g@[j],
                        decreases gn - k,
                    {
                        groups.push(g[k]);
                        k = k + 1;
                    }
                    let zn = 10 - n;
                    let mut k2: usize = 0;
                    while k2 < zn
                        invariant
                            k2 <= zn,
                            gn == g@.len(),
                            gn == n - 2,
                            zn == 10 - n,
                            groups@.len() == gn + k2,
                            forall|j: int| 0 <= j < gn ==> (#[trigger] groups@[j]) == g@[j],
                            forall|j: int|
                                gn <= j < gn + k2 ==> (#[trigger] groups@[j]) == 0,
                        decreases zn - k2,
                    {
                        groups.push(0);
                        k2 = k2 + 1;
                    }
                    proof {
                        assert(parts.take(parts.len() - 2).len() == n - 2);
                        assert(groups@.len() == 8);
                        assert forall|j: int| 0 <= j < 8 implies (#[trigger] groups@[j]) as int
                            == target[j] by {
                            if j < n - 2 {
                                assert(groups@[j] == g@[j]);
                                assert(g@[j] as int == hex_seq_val(parts[j]));
                                assert(parts.take(parts.len() - 2)[j] == parts[j]);
                                assert(group_vals(parts.take(parts.len() - 2))[j]
                                    == hex_seq_val(parts.take(parts.len() - 2)[j]));
                                assert(target[j] == group_vals(parts.take(parts.len() - 2))[j]);
                            } else {
                                assert(target[j] == zero_groups(10 - parts.len())[j - (n - 2)]);
                            }
                        }
                        if n == 8 {
                            assert(!hex_field_ok(parts[7]));
                        }
                        assert(ipv6_groups_spec(parts) == Some(target));
                    }
                    return Ok(Self::groups_to_ip(&groups, Ghost(target)));
                },
                Err(bad) => {
                    proof {
                        assert(parts[bad as int] == chars@.subrange(
                            cols@[bad as int].0 as int,
                            cols@[bad as int].1 as int,
                        ));
                        assert(!hex_field_ok(parts[bad as int]));
                        assert(parts[parts.len() - 1].len() == 0);
                        assert(parts[parts.len() - 2].len() == 0);
                        assert(!hex_field_ok(parts[parts.len() - 1]));
                        assert(parts.take(parts.len() - 2)[bad as int] == parts[bad as int]);
                        assert(!all_hex_fields(parts.take(parts.len() - 2)));
                        assert(ipv6_groups_spec(parts) is None);
                    }
                    return Err(ConfigError::FailedToParseAsIp(String::from_str(s)));
                },
            }
        }
        // a single interior `::`
        let mut fe: usize = 0;
        let mut fe_found: bool = false;
        let mut k3: usize = 0;
        while k3 < n
            invariant_except_break
                k3 <= n,
                n == cols@.len(),
                !fe_found,
                forall|k2: int| 0 <= k2 < cols@.len() ==> (#[trigger] cols@[k2]).0
                    <= cols@[k2].1 <= chars@.len(),
                parts.len() == n,
                forall|k2: int| 0 <= k2 < n ==> (#[trigger] parts[k2]).len() == cols@[k2].1
                    - cols@[k2].0,
                forall|j: int| 0 <= j < k3 ==> (#[trigger] parts[j]).len() > 0,
            ensures
                n == cols@.len(),
                parts.len() == n,
                fe_found ==> fe < n && parts[fe as int].len() == 0 && (forall|j: int|
                    0 <= j < fe ==> (#[trigger] parts[j]).len() > 0),
                !fe_found ==> (forall|j: int| 0 <= j < n ==> (#[trigger] parts[j]).len() > 0),
            decreases n - k3,
        {
            let (a, b) = cols[k3];
            if b == a {
                fe = k3;
                fe_found = true;
                break ;
            }
            k3 = k3 + 1;
        }
        proof {
            if fe_found {
                lemma_first_empty_at(parts, fe as int);
            } else {
                lemma_first_empty_none(parts);
            }
        }
        if !fe_found || !(3 <= n && n <= 8) || fe == 0 || fe >= n - 1 {
            proof {
                if fe_found {
                    assert(!hex_field_ok(parts[fe as int]));
                }
                assert(ipv6_groups_spec(parts) is None);
            }
            return Err(ConfigError::FailedToParseAsIp(String::from_str(s)));
        }
        // no second empty field
        let mut k4: usize = fe + 1;
        while k4 < n
            invariant
                fe + 1 <= k4 <= n,
                n == cols@.len(),
                parts.len() == n,
                fe_found,
                1 <= fe && fe < n - 1,
                3 <= n <= 8,
                parts[fe as int].len() == 0,
                first_empty(parts) == fe,
                forall|k2: int| 0 <= k2 < cols@.len() ==> (#[trigger] cols@[k2]).0
                    <= cols@[k2].1 <= chars@.len(),
                forall|k2: int| 0 <= k2 < n ==> (#[trigger] parts[k2]).len() == cols@[k2].1
                    - cols@[k2].0,
                forall|j: int| 0 <= j < fe ==> (#[trigger] parts[j]).len() > 0,
                forall|j: int| fe < j < k4 ==> (#[trigger] parts[j]).len() > 0,
                parts[n - 1].len() > 0 || parts[n - 2].len() > 0,
                parts == split_sep(chars@, ':'),
                chars@ == s@,
                ipv4_parse_spec(s@) is None,
            decreases n - k4,
        {
            let (a, b) = cols[k4];
            if b == a {
                proof {
                    assert(parts[k4 as int].len() == 0);
                    assert(!hex_field_ok(parts[fe as int]));
                    assert(ipv6_groups_spec(parts) is None);
                }
                return Err(ConfigError::FailedToParseAsIp(String::from_str(s)));
            }
            k4 = k4 + 1;
        }
        let left = parse_hex_fields(chars, &cols, 0, fe);
        let right = parse_hex_fields(chars, &cols, fe + 1, n);
        match (left, right) {
            (Ok(gl), Ok(gr)) => {
                let ghost target = group_vals(parts.take(fe as int)) + zero_groups(
                    9 - parts.len(),
                ) + group_vals(parts.skip(fe as int + 1));
                proof {
                    assert forall|k: int| 0 <= k < fe implies hex_field_ok(
                        #[trigger] parts[k],
                    ) && gl@[k] as int == hex_seq_val(parts[k]) by {
                        assert(parts[k] == chars@.subrange(
                            cols@[k].0 as int,
                            cols@[k].1 as int,
                        ));
                    }
                    assert forall|k: int| fe < k < n implies hex_field_ok(
                        #[trigger] parts[k],
                    ) && gr@[k - fe - 1] as int == hex_seq_val(parts[k]) by {
                        assert(parts[k] == chars@.subrange(
                            cols@[k].0 as int,
                            cols@[k].1 as int,
                        ));
                    }
                    assert forall|j: int| 0 <= j < fe implies hex_field_ok(
                        #[trigger] parts.take(fe as int)[j],
                    ) by {
                        assert(parts.take(fe as int)[j] == parts[j]);
                    }
                    assert forall|j: int| 0 <= j < n - fe - 1 implies hex_field_ok(
                        #[trigger] parts.skip(fe as int + 1)[j],
                    ) by {
                        assert(parts.skip(fe as int + 1)[j] == parts[fe + 1 + j]);
                    }
                    assert(all_hex_fields(parts.take(fe as int)));
                    assert(all_hex_fields(parts.skip(fe as int + 1)));
                }
                let ln = gl.len();
                let mut k5: usize = 0;
                while k5 < ln
                    invariant
                        k5 <= ln,
                        ln == gl@.len(),
                        groups@.len() == k5,
                        forall|j: int| 0 <= j < k5 ==> (#[trigger] groups@[j]) == gl@[j],
                    decreases ln - k5,
                {
                    groups.push(gl[k5]);
                    k5 = k5 + 1;
                }
                let zn = 9 - n;
                let mut k6: usize = 0;
                while k6 < zn
                    invariant
                        k6 <= zn,
                        ln == gl@.len(),
                        groups@.len() == ln + k6,
                        forall|j: int| 0 <= j < ln ==> (#[trigger] groups@[j]) == gl@[j],
                        forall|j: int| ln <= j < ln + k6 ==> (#[trigger] groups@[j]) == 0,
                    decreases zn - k6,
                {
                    groups.push(0);
                    k6 = k6 + 1;
                }
                let rn = gr.len();
                let mut k7: usize = 0;
                while k7 < rn
                    invariant
                        k7 <= rn,
                        rn == gr@.len(),
                        ln == gl@.len(),
                        zn == 9 - n,
                        groups@.len() == ln + zn + k7,
                        forall|j: int| 0 <= j < ln ==> (#[trigger] groups@[j]) == gl@[j],
                        forall|j: int| ln <= j < ln + zn ==> (#[trigger] groups@[j]) == 0,
                        forall|j: int|
                            0 <= j < k7 ==> (#[trigger] groups@[ln + zn + j]) == gr@[j],
                    decreases rn - k7,
                {
                    groups.push(gr[k7]);
                    k7 = k7 + 1;
                }
                proof {
                    assert(parts.take(fe as int).len() == fe);
                    assert(parts.skip(fe as int + 1).len() == n - fe - 1);
                    assert(groups@.len() == 8);
                    assert forall|j: int| 0 <= j < 8 implies (#[trigger] groups@[j]) as int
                        == target[j] by {
                        let lv = group_vals(parts.take(fe as int));
                        let zv = zero_groups(9 - parts.len());
                        let rv = group_vals(parts.skip(fe as int + 1));
                        if j < fe {
                            assert(groups@[j] == gl@[j]);
                            assert(gl@[j] as int == hex_seq_val(parts[j]));
                            assert(parts.take(fe as int)[j] == parts[j]);
                            assert(lv[j] == hex_seq_val(parts.take(fe as int)[j]));
                            assert(target[j] == lv[j]);
                        } else if j < fe + (9 - n) {
                            assert(groups@[j] == 0);
                            assert(target[j] == zv[j - fe]);
                        } else {
                            let t = j - fe - (9 - n);
                            assert(groups@[(fe + (9 - n)) + t] == gr@[t]);
                            assert(gr@[(fe + 1 + t) - fe - 1] as int == hex_seq_val(
                                parts[fe + 1 + t],
                            ));
                            assert(parts.skip(fe as int + 1)[t] == parts[fe + 1 + t]);
                            assert(rv[t] == hex_seq_val(parts.skip(fe as int + 1)[t]));
                            assert(target[j] == rv[t]);
                        }
                    }
                    assert(!hex_field_ok(parts[fe as int]));
                    assert(parts[parts.len() - 1].len() > 0);
                    assert(ipv6_groups_spec(parts) == Some(target));
                }
                Ok(Self::groups_to_ip(&groups, Ghost(target)))
            },
            (Err(bad), _) => {
                proof {
                    assert(parts[bad as int] == chars@.subrange(
                        cols@[bad as int].0 as int,
                        cols@[bad as int].1 as int,
                    ));
                    assert(!hex_field_ok(parts[bad as int]));
                    assert(!hex_field_ok(parts[fe as int]));
                    assert(parts.take(fe as int)[bad as int] == parts[bad as int]);
                    assert(!all_hex_fields(parts.take(fe as int)));
                    assert(parts[parts.len() - 1].len() > 0);
                    assert(ipv6_groups_spec(parts) is None);
                }
                Err(ConfigError::FailedToParseAsIp(String::from_str(s)))
            },
            (_, Err(bad)) => {
                proof {
                    assert(parts[bad as int] == chars@.subrange(
                        cols@[bad as int].0 as int,
                        cols@[bad as int].1 as int,
                    ));
                    assert(!hex_field_ok(parts[bad as int]));
                    assert(!hex_field_ok(parts[fe as int]));
                    assert(parts.skip(fe as int + 1)[bad - fe - 1] == parts[bad as int]);
                    assert(!all_hex_fields(parts.skip(fe as int + 1)));
                    assert(parts[parts.len() - 1].len() > 0);
                    assert(ipv6_groups_spec(parts) is None);
                }
                Err(ConfigError::FailedToParseAsIp(String::from_str(s)))
            },
        }
    }

    /// Packs eight group values into sixteen big-endian octets.
    fn groups_to_ip(g: &Vec<u16>, Ghost(vals): Ghost<Seq<int>>) -> (r: IpAddress)
        requires
            g@.len() == 8,
            vals.len() == 8,
            forall|j: int| 0 <= j < 8 ==> (#[trigger] g@[j]) as int == vals[j],
        ensures
            r == (IpAddress::V6(
                [
                    (vals[0] / 256) as u8,
                    (vals[0] % 256) as u8,
                    (vals[1] / 256) as u8,
                    (vals[1] % 256) as u8,
                    (vals[2] / 256) as u8,
                    (vals[2] % 256) as u8,
                    (vals[3] / 256) as u8,
                    (vals[3] % 256) as u8,
                    (vals[4] / 256) as u8,
                    (vals[4] % 256) as u8,
                    (vals[5] / 256) as u8,
                    (vals[5] % 256) as u8,
                    (vals[6] / 256) as u8,
                    (vals[6] % 256) as u8,
                    (vals[7] / 256) as u8,
                    (vals[7] % 256) as u8,
                ],
            )),
    {
        let r = IpAddress::V6(
            [
                (g[0] / 256) as u8,
                (g[0] % 256) as u8,
                (g[1] / 256) as u8,
                (g[1] % 256) as u8,
                (g[2] / 256) as u8,
                (g[2] % 256) as u8,
                (g[3] / 256) as u8,
                (g[3] % 256) as u8,
                (g[4] / 256) as u8,
                (g[4] % 256) as u8,
                (g[5] / 256) as u8,
                (g[5] % 256) as u8,
                (g[6] / 256) as u8,
                (g[6] % 256) as u8,
                (g[7] / 256) as u8,
                (g[7] % 256) as u8,
            ],
        );
        r
    }
}
proof fn lemma_first_empty_at(parts: Seq<Seq<char>>, i: int)
    requires
        0 <= i < parts.len(),
        parts[i].len() == 0,
        forall|j: int| 0 <= j < i ==> (#[trigger] parts[j]).len() > 0,
    ensures
        first_empty(parts) == i,
    decreases i,
{
    if i > 0 {
        assert(forall|j: int|
            0 <= j < i - 1 ==> (#[trigger] parts.skip(1)[j]).len() > 0);
        assert(parts.skip(1)[i - 1] == parts[i]);
        lemma_first_empty_at(parts.skip(1), i - 1);
    }
}

/// With no empty field, `first_empty` is -1.
proof fn lemma_first_empty_none(parts: Seq<Seq<char>>)
    requires
        forall|j: int| 0 <= j < parts.len() ==> (#[trigger] parts[j]).len() > 0,
    ensures
        first_empty(parts) == -1,
    decreases parts.len(),
{
    if parts.len() > 0 {
        assert(forall|j: int|
            0 <= j < parts.len() - 1 ==> (#[trigger] parts.skip(1)[j]).len() > 0);
        lemma_first_empty_none(parts.skip(1));
    }
}

/// The character for one hex digit value, upper case.
pub open spec fn hex_digit_spec(d: int) -> char {
    if d == 0 {
        '0'
    } else if d == 1 {
        '1'
    } else if d == 2 {
        '2'
    } else if d == 3 {
        '3'
    } else if d == 4 {
        '4'
    } else if d == 5 {
        '5'
    } else if d == 6 {
        '6'
    } else if d == 7 {
        '7'
    } else if d == 8 {
        '8'
    } else if d == 9 {
        '9'
    } else if d == 10 {
        'A'
    } else if d == 11 {
        'B'
    } else if d == 12 {
        'C'
    } else if d == 13 {
        'D'
    } else if d == 14 {
        'E'
    } else {
        'F'
    }
}

/// The shortest decimal rendering of one byte.
pub open spec fn dec_byte_spec(b: u8) -> Seq<char> {
    if b < 10 {
        seq![hex_digit_spec(b as int)]
    } else if b < 100 {
        seq![hex_digit_spec(b as int / 10), hex_digit_spec(b as int % 10)]
    } else {
        seq![
            hex_digit_spec(b as int / 100),
            hex_digit_spec(b as int / 10 % 10),
            hex_digit_spec(b as int % 10),
        ]
    }
}

/// Four upper-case hex digits for one pair of octets.
pub open spec fn hex_group_spec(hi: u8, lo: u8) -> Seq<char> {
    seq![
        hex_digit_spec(hi as int / 16),
        hex_digit_spec(hi as int % 16),
        hex_digit_spec(lo as int / 16),
        hex_digit_spec(lo as int % 16),
    ]
}

/// The dotted-quad rendering of four octets.
pub open spec fn render_ipv4_spec(o: Seq<u8>) -> Seq<char> {
    dec_byte_spec(o[0]) + seq!['.'] + dec_byte_spec(o[1]) + seq!['.'] + dec_byte_spec(o[2])
        + seq!['.'] + dec_byte_spec(o[3])
}

/// The first `k` of the eight colon-separated 4-hex-digit groups of an IPv6
/// address, each group derived from one octet pair.
pub open spec fn render_v6_upto(o: Seq<u8>, k: int) -> Seq<char>
    decreases k,
{
    if k <= 0 {
        Seq::empty()
    } else if k == 1 {
        hex_group_spec(o[0], o[1])
    } else {
        render_v6_upto(o, k - 1) + seq![':'] + hex_group_spec(o[2 * (k - 1)], o[2 * k - 1])
    }
}

/// Eight upper-case 4-hex-digit groups separated by colons.
pub open spec fn render_ipv6_spec(o: Seq<u8>) -> Seq<char> {
    render_v6_upto(o, 8)
}

/// The text an IP is matched against when no hostname is known: dotted quad
/// for IPv4, eight upper-case 4-hex-digit groups for IPv6.
pub open spec fn render_ip_spec(ip: IpAddress) -> Seq<char> {
    match ip {
        IpAddress::V4(o) => render_ipv4_spec(o@),
        IpAddress::V6(o) => render_ipv6_spec(o@),
    }
}

/// Appends the character for one hex digit value.
fn push_hex_digit(s: &mut String, d: u8)
    requires
        d < 16,
    ensures
        final(s)@ == old(s)@ + seq![hex_digit_spec(d as int)],
{
    let t: &str = if d == 0 {
        "0"
    } else if d == 1 {
        "1"
    } else if d == 2 {
        "2"
    } else if d == 3 {
        "3"
    } else if d == 4 {
        "4"
    } else if d == 5 {
        "5"
    } else if d == 6 {
        "6"
    } else if d == 7 {
        "7"
    } else if d == 8 {
        "8"
    } else if d == 9 {
        "9"
    } else if d == 10 {
        "A"
    } else if d == 11 {
        "B"
    } else if d == 12 {
        "C"
    } else if d == 13 {
        "D"
    } else if d == 14 {
        "E"
    } else {
        "F"
    };
    proof {
        reveal_strlit("0");
        reveal_strlit("1");
        reveal_strlit("2");
        reveal_strlit("3");
        reveal_strlit("4");
        reveal_strlit("5");
        reveal_strlit("6");
        reveal_strlit("7");
        reveal_strlit("8");
        reveal_strlit("9");
        reveal_strlit("A");
        reveal_strlit("B");
        reveal_strlit("C");
        reveal_strlit("D");
        reveal_strlit("E");
        reveal_strlit("F");
        assert(t@ =~= seq![hex_digit_spec(d as int)]);
    }
    s.append(t);
}

/// Appends the shortest decimal rendering of one byte.
fn push_dec_byte(s: &mut String, b: u8)
    ensures
        final(s)@ == old(s)@ + dec_byte_spec(b),
{
    if b < 10 {
        push_hex_digit(s, b);
    } else if b < 100 {
        push_hex_digit(s, b / 10);
        push_hex_digit(s, b % 10);
    } else {
        push_hex_digit(s, b / 100);
        push_hex_digit(s, b / 10 % 10);
        push_hex_digit(s, b % 10);
    }
    proof {
        assert(final(s)@ =~= old(s)@ + dec_byte_spec(b));
    }
}

/// The textual form of six octets: `hh:hh:hh:hh:hh:hh` in upper-case hex.
pub open spec fn mac_text_spec(o: Seq<u8>) -> Seq<char> {
    Seq::new(
        17,
        |i: int|
            if i % 3 == 2 {
                ':'
            } else if i % 3 == 0 {
                hex_digit_spec(o[i / 3] as int / 16)
            } else {
                hex_digit_spec(o[i / 3] as int % 16)
            },
    )
}

/// The value of an upper-case hex digit character.
proof fn lemma_hex_val_of_digit(d: int)
    requires
        0 <= d < 16,
    ensures
        hex_val(hex_digit_spec(d)) == d,
{
}

/// MAC round trip: the textual form of any six octets is a valid MAC
/// literal denoting exactly those octets, so parsing it back yields the
/// same address.
pub proof fn lemma_mac_round_trip(o: Seq<u8>)
    requires
        o.len() == 6,
    ensures
        mac_str_valid(mac_text_spec(o)),
        mac_octets_spec(mac_text_spec(o)) == o,
{
    let s = mac_text_spec(o);
    assert forall|k: int| 0 <= k < 6 implies hex_val(s[3 * k]) == o[k] as int / 16 && hex_val(
        s[3 * k + 1],
    ) == o[k] as int % 16 by {
        assert((3 * k) % 3 == 0 && (3 * k) / 3 == k) by (nonlinear_arith);
        assert((3 * k + 1) % 3 == 1 && (3 * k + 1) / 3 == k) by (nonlinear_arith);
        lemma_hex_val_of_digit(o[k] as int / 16);
        lemma_hex_val_of_digit(o[k] as int % 16);
    }
    assert(hex_val(s[0]) >= 0 && hex_val(s[1]) >= 0) by {
        assert(s[3 * 0int] == s[0int] && s[3 * 0int + 1] == s[1int]);
    }
    assert(hex_val(s[3]) >= 0 && hex_val(s[4]) >= 0) by {
        assert(s[3 * 1int] == s[3int] && s[3 * 1int + 1] == s[4int]);
    }
    assert(hex_val(s[6]) >= 0 && hex_val(s[7]) >= 0) by {
        assert(s[3 * 2int] == s[6int] && s[3 * 2int + 1] == s[7int]);
    }
    assert(hex_val(s[9]) >= 0 && hex_val(s[10]) >= 0) by {
        assert(s[3 * 3int] == s[9int] && s[3 * 3int + 1] == s[10int]);
    }
    assert(hex_val(s[12]) >= 0 && hex_val(s[13]) >= 0) by {
        assert(s[3 * 4int] == s[12int] && s[3 * 4int + 1] == s[13int]);
    }
    assert(hex_val(s[15]) >= 0 && hex_val(s[16]) >= 0) by {
        assert(s[3 * 5int] == s[15int] && s[3 * 5int + 1] == s[16int]);
    }
    assert(mac_str_valid(s));
    assert forall|k: int| 0 <= k < 6 implies mac_octets_spec(s)[k] == o[k] by {
        assert(hex_val(s[3 * k]) == o[k] as int / 16 && hex_val(s[3 * k + 1]) == o[k] as int
            % 16);
    }
    assert(mac_octets_spec(s) =~= o);
}

impl MacAddr {
    /// The textual form `hh:hh:hh:hh:hh:hh`, upper-case; parsing it back
    /// yields the same address.
    pub fn render(&self) -> (r: String)
        ensures
            r@ == mac_text_spec(self@),
    {
        broadcast use vstd::string::group_string_axioms;

        let mut s = String::new();
        proof {
            reveal_strlit(":");
        }
        let mut k: usize = 0;
        while k < 6
            invariant
                k <= 6,
                self@.len() == 6,
                s@ == mac_text_spec(self@).take(if k == 0 {
                    0int
                } else {
                    3 * k - 1
                }),
                ":"@ == seq![':'],
            decreases 6 - k,
        {
            if k > 0 {
                s.append(":");
            }
            let b = self.octets[k];
            push_hex_digit(&mut s, b / 16);
            push_hex_digit(&mut s, b % 16);
            proof {
                assert(s@ =~= mac_text_spec(self@).take(if k + 1 == 6 {
                    17int
                } else {
                    3 * (k + 1) - 1
                }));
            }
            k = k + 1;
        }
        proof {
            assert(mac_text_spec(self@).take(17) =~= mac_text_spec(self@));
        }
        s
    }
}

/// Renders an IP as the text a hostname regex falls back to; see
/// [`render_ip_spec`].
pub fn render_ip(ip: &IpAddress) -> (r: String)
    ensures
        r@ == render_ip_spec(*ip),
{
    broadcast use vstd::string::group_string_axioms;

    let mut s = String::new();
    proof {
        reveal_strlit(".");
        reveal_strlit(":");
    }
    match ip {
        IpAddress::V4(o) => {
            push_dec_byte(&mut s, o[0]);
            s.append(".");
            push_dec_byte(&mut s, o[1]);
            s.append(".");
            push_dec_byte(&mut s, o[2]);
            s.append(".");
            push_dec_byte(&mut s, o[3]);
            proof {
                assert(s@ =~= render_ip_spec(*ip));
            }
        },
        IpAddress::V6(o) => {
            let mut k: usize = 0;
            while k < 8
                invariant
                    k <= 8,
                    o@.len() == 16,
                    s@ == render_v6_upto(o@, k as int),
                    ":"@ == seq![':'],
                decreases 8 - k,
            {
                if k > 0 {
                    s.append(":");
                }
                push_hex_digit(&mut s, o[2 * k] / 16);
                push_hex_digit(&mut s, o[2 * k] % 16);
                push_hex_digit(&mut s, o[2 * k + 1] / 16);
                push_hex_digit(&mut s, o[2 * k + 1] % 16);
                proof {
                    assert(s@ =~= render_v6_upto(o@, k as int + 1));
                }
                k = k + 1;
            }
        },
    }
    s
}

} // verus!
