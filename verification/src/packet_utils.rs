//! RFC 1071 Internet checksums over byte buffers.
//!
//! The checksum treats its input as a sequence of big-endian 16-bit words
//! (an odd trailing byte is padded with a zero low-order byte), sums them
//! with end-around carry, and complements the 16-bit result.

use crate::addrs::{IpAddress, MacAddr};
use vstd::arithmetic::div_mod::{
    lemma_add_mod_noop, lemma_fundamental_div_mod, lemma_mod_equivalence,
    lemma_mod_multiples_vanish,
};
use vstd::prelude::*;
use vstd::slice::slice_subrange;

verus! {

/// Network-layer classification of one captured frame.
#[derive(Debug, Clone)]
pub enum Protocol {
    Ipv4(TransportProtocol),
    Ipv6(TransportProtocol),
}

/// Transport-layer classification within an IP packet.
#[derive(Debug, Clone)]
pub enum TransportProtocol {
    TCP(TcpFlags),
    UDP(UdpProtocol),
    Other,
}

/// The two TCP flag bits the interceptor inspects.
#[derive(Debug, Clone)]
pub enum TcpFlags {
    SynAck(bool, bool),
    Other,
}

/// UDP traffic reaching the interceptor; the capture-level filter restricts
/// it to DNS responses.
#[derive(Debug, Clone)]
pub enum UdpProtocol {
    DNS,
    Other,
}

/// The sum of the big-endian 16-bit words of `b`; an odd trailing byte is
/// padded with a zero low-order byte.
pub open spec fn sum_words(b: Seq<u8>) -> int
    decreases b.len(),
{
    if b.len() == 0 {
        0
    } else if b.len() == 1 {
        (b[0] as int) * 256
    } else {
        (b[0] as int) * 256 + (b[1] as int) + sum_words(b.skip(2))
    }
}

/// End-around-carry reduction of a non-negative sum to a 16-bit value:
/// the fixpoint of `x := (x & 0xffff) + (x >> 16)`.
pub open spec fn fold_carry(x: int) -> int {
    if x == 0 {
        0
    } else {
        1 + (x - 1) % 0xffff
    }
}

/// The RFC 1071 Internet checksum of `b`.
pub open spec fn checksum_spec(b: Seq<u8>) -> u16 {
    (0xffff - fold_carry(sum_words(b))) as u16
}

pub proof fn lemma_sum_words_nonneg(b: Seq<u8>)
    ensures
        sum_words(b) >= 0,
    decreases b.len(),
{
    if b.len() >= 2 {
        lemma_sum_words_nonneg(b.skip(2));
    }
}

/// Two non-negative sums that agree modulo 0xffff and are zero together
/// reduce to the same 16-bit value.
proof fn lemma_fold_carry_eqv(x: int, y: int)
    requires
        x >= 0,
        y >= 0,
        x % 0xffff == y % 0xffff,
        (x == 0) <==> (y == 0),
    ensures
        fold_carry(x) == fold_carry(y),
{
    if x != 0 {
        lemma_mod_equivalence(x, y, 0xffff);
        lemma_mod_equivalence(x - 1, y - 1, 0xffff);
    }
}

/// One end-around-carry step `x := x % 0x10000 + x / 0x10000` keeps the sum
/// congruent modulo 0xffff, keeps it non-negative, and keeps it zero iff it
/// was zero.
proof fn lemma_carry_step16(x: int)
    requires
        x >= 0,
    ensures
        x % 0x10000 + x / 0x10000 >= 0,
        (x % 0x10000 + x / 0x10000) % 0xffff == x % 0xffff,
        (x % 0x10000 + x / 0x10000 == 0) <==> (x == 0),
        x > 0xffff ==> x % 0x10000 + x / 0x10000 < x,
{
    lemma_fundamental_div_mod(x, 0x10000);
    let q = x / 0x10000;
    let r = x % 0x10000;
    assert(x == 0x10000 * q + r);
    assert(q >= 0 && 0 <= r < 0x10000) by {
        lemma_mod_equivalence(x, x, 0x10000);
    }
    assert(q + r == 0xffff * q + (q + r) - 0xffff * q);
    assert((0xffff * q + (q + r)) % 0xffff == (q + r) % 0xffff) by {
        lemma_mod_multiples_vanish(q, q + r, 0xffff);
    }
    assert(x == 0xffff * q + (q + r));
}

/// Processing one 16-bit word moves its value from the remaining suffix into
/// the accumulator without changing the overall sum.
proof fn lemma_sum_words_step2(b: Seq<u8>, i: int)
    requires
        0 <= 2 * i,
        2 * i + 2 <= b.len(),
    ensures
        sum_words(b.skip(2 * i)) == (b[2 * i] as int) * 256 + (b[2 * i + 1] as int) + sum_words(
            b.skip(2 * i + 2),
        ),
{
    let s = b.skip(2 * i);
    assert(s.len() >= 2);
    assert(s[0] == b[2 * i]);
    assert(s[1] == b[2 * i + 1]);
    assert(s.skip(2) =~= b.skip(2 * i + 2));
}

/// Computes the RFC 1071 Internet checksum, accumulating one 16-bit word at
/// a time with an end-around carry folded in at every step.
pub fn checksum_by2(bytes: &[u8]) -> (r: u16)
    ensures
        r == checksum_spec(bytes@),
{
    proof {
        lemma_sum_words_nonneg(bytes@);
        assert(bytes@.skip(0) =~= bytes@);
    }
    let ghost total = sum_words(bytes@);
    let n = bytes.len();
    let mut acc: u32 = 0;
    let mut i: usize = 0;
    while i + 1 < n
        invariant
            n == bytes@.len(),
            i % 2 == 0,
            i <= n,
            acc <= 0x1ffff,
            acc + sum_words(bytes@.skip(i as int)) >= 0,
            (acc + sum_words(bytes@.skip(i as int))) % 0xffff == total % 0xffff,
            (acc + sum_words(bytes@.skip(i as int)) == 0) <==> (total == 0),
        decreases n - i,
    {
        proof {
            lemma_carry_step16(acc as int);
            lemma_sum_words_step2(bytes@, i as int / 2);
            lemma_sum_words_nonneg(bytes@.skip(i as int + 2));
        }
        acc = acc % 0x10000 + acc / 0x10000;
        let word: u32 = (bytes[i] as u32) * 256 + (bytes[i + 1] as u32);
        acc = acc + word;
        i = i + 2;
    }
    if i < n {
        proof {
            assert(bytes@.skip(i as int).len() == 1);
            assert(bytes@.skip(i as int)[0] == bytes@[i as int]);
            lemma_carry_step16(acc as int);
        }
        acc = acc % 0x10000 + acc / 0x10000;
        acc = acc + (bytes[i] as u32) * 256;
    }
    proof {
        if i < n {
            assert(sum_words(bytes@.skip(i as int)) == (bytes@[i as int] as int) * 256);
        } else {
            assert(bytes@.skip(i as int) =~= Seq::<u8>::empty());
        }
    }
    while acc > 0xffff
        invariant
            acc as int % 0xffff == total % 0xffff,
            (acc == 0) <==> (total == 0),
        decreases acc,
    {
        proof {
            lemma_carry_step16(acc as int);
        }
        acc = acc % 0x10000 + acc / 0x10000;
    }
    proof {
        if total != 0 {
            assert(acc as int == 1 + (acc - 1) % 0xffff) by {
                lemma_mod_equivalence(acc as int, acc as int, 0xffff);
            }
            lemma_fold_carry_eqv(acc as int, total);
        }
    }
    (0xffff - acc) as u16
}

/// Sums that agree modulo 0xffff may be added termwise without changing the
/// residue.
proof fn lemma_eqv_add(a: int, a2: int, b: int, b2: int)
    requires
        a % 0xffff == a2 % 0xffff,
        b % 0xffff == b2 % 0xffff,
    ensures
        (a + b) % 0xffff == (a2 + b2) % 0xffff,
{
    lemma_add_mod_noop(a, b, 0xffff);
    lemma_add_mod_noop(a2, b2, 0xffff);
}

/// One end-around-carry step at 32 bits keeps the sum congruent modulo
/// 0xffff (since 0x1_0000_0000 - 1 == 0xffff * 0x10001), non-negative, and
/// zero iff it was zero.
proof fn lemma_carry_step32(x: int)
    requires
        x >= 0,
    ensures
        x % 0x100000000 + x / 0x100000000 >= 0,
        (x % 0x100000000 + x / 0x100000000) % 0xffff == x % 0xffff,
        (x % 0x100000000 + x / 0x100000000 == 0) <==> (x == 0),
{
    lemma_fundamental_div_mod(x, 0x100000000);
    let q = x / 0x100000000;
    let r = x % 0x100000000;
    assert(q >= 0 && 0 <= r < 0x100000000) by {
        lemma_mod_equivalence(x, x, 0x100000000);
    }
    assert(x == 0xffff * (0x10001 * q) + (q + r));
    assert((0xffff * (0x10001 * q) + (q + r)) % 0xffff == (q + r) % 0xffff) by {
        lemma_mod_multiples_vanish(0x10001 * q, q + r, 0xffff);
    }
}

/// A big-endian 32-bit word is congruent modulo 0xffff to the sum of its two
/// 16-bit halves, and zero iff both halves are.
proof fn lemma_word32_eqv(w01: int, w23: int)
    requires
        0 <= w01 < 0x10000,
        0 <= w23 < 0x10000,
    ensures
        (w01 * 0x10000 + w23) % 0xffff == (w01 + w23) % 0xffff,
        (w01 * 0x10000 + w23 == 0) <==> (w01 == 0 && w23 == 0),
{
    assert(w01 * 0x10000 + w23 == 0xffff * w01 + (w01 + w23));
    lemma_mod_multiples_vanish(w01, w01 + w23, 0xffff);
}

/// Processing one 32-bit word moves two 16-bit words from the remaining
/// suffix into the accumulator.
proof fn lemma_sum_words_step4(b: Seq<u8>, i: int)
    requires
        0 <= i,
        i % 2 == 0,
        i + 4 <= b.len(),
    ensures
        sum_words(b.skip(i)) == (b[i] as int) * 256 + (b[i + 1] as int) + (b[i + 2] as int) * 256
            + (b[i + 3] as int) + sum_words(b.skip(i + 4)),
{
    lemma_sum_words_step2(b, i / 2);
    lemma_sum_words_step2(b, i / 2 + 1);
}

/// Computes the RFC 1071 Internet checksum, accumulating one big-endian
/// 32-bit word at a time in a 64-bit accumulator with an end-around carry
/// folded in at every step; a trailing partial word is padded with zero
/// low-order bytes.
#[verifier::rlimit(50)]
pub fn checksum(bytes: &[u8]) -> (r: u16)
    ensures
        r == checksum_spec(bytes@),
{
    proof {
        lemma_sum_words_nonneg(bytes@);
        assert(bytes@.skip(0) =~= bytes@);
    }
    let ghost total = sum_words(bytes@);
    let n = bytes.len();
    let mut acc: u64 = 0;
    let mut i: usize = 0;
    while i + 3 < n
        invariant
            n == bytes@.len(),
            i % 4 == 0,
            i <= n,
            acc <= 0x1_ffff_ffff,
            acc + sum_words(bytes@.skip(i as int)) >= 0,
            (acc + sum_words(bytes@.skip(i as int))) % 0xffff == total % 0xffff,
            (acc + sum_words(bytes@.skip(i as int)) == 0) <==> (total == 0),
        decreases n - i,
    {
        let ghost w01 = (bytes@[i as int] as int) * 256 + (bytes@[i as int + 1] as int);
        let ghost w23 = (bytes@[i as int + 2] as int) * 256 + (bytes@[i as int + 3] as int);
        proof {
            lemma_carry_step32(acc as int);
            lemma_sum_words_step4(bytes@, i as int);
            lemma_sum_words_nonneg(bytes@.skip(i as int + 4));
            lemma_word32_eqv(w01, w23);
            lemma_eqv_add(
                (acc as int % 0x100000000 + acc as int / 0x100000000) + (w01 * 0x10000 + w23),
                acc + (w01 + w23),
                sum_words(bytes@.skip(i as int + 4)),
                sum_words(bytes@.skip(i as int + 4)),
            );
        }
        acc = acc % 0x100000000 + acc / 0x100000000;
        let word: u64 = (bytes[i] as u64) * 0x1000000 + (bytes[i + 1] as u64) * 0x10000 + (bytes[i
            + 2] as u64) * 256 + (bytes[i + 3] as u64);
        acc = acc + word;
        i = i + 4;
    }
    if i < n {
        proof {
            lemma_carry_step32(acc as int);
        }
        acc = acc % 0x100000000 + acc / 0x100000000;
        let ghost a0 = acc as int;
        let ghost s = sum_words(bytes@.skip(i as int));
        let tail = n - i;
        if tail == 1 {
            acc = acc + (bytes[i] as u64) * 0x1000000;
            proof {
                assert(bytes@.skip(i as int) =~= seq![bytes@[i as int]]);
                let w01 = (bytes@[i as int] as int) * 256;
                let t = (bytes@[i as int] as int) * 0x1000000;
                assert(t == 0xffff * w01 + w01);
                lemma_mod_multiples_vanish(w01, w01, 0xffff);
                lemma_eqv_add(a0, a0, t, s);
            }
        } else if tail == 2 {
            acc = acc + (bytes[i] as u64) * 0x1000000 + (bytes[i + 1] as u64) * 0x10000;
            proof {
                assert(bytes@.skip(i as int) =~= seq![bytes@[i as int], bytes@[i as int + 1]]);
                assert(bytes@.skip(i as int).skip(2) =~= Seq::<u8>::empty());
                let w01 = (bytes@[i as int] as int) * 256 + (bytes@[i as int + 1] as int);
                let t = w01 * 0x10000;
                assert(t == 0xffff * w01 + w01);
                assert(sum_words(Seq::<u8>::empty()) == 0);
                assert(s == w01);
                lemma_mod_multiples_vanish(w01, w01, 0xffff);
                lemma_eqv_add(a0, a0, t, s);
            }
        } else {
            acc = acc + (bytes[i] as u64) * 0x1000000 + (bytes[i + 1] as u64) * 0x10000 + (bytes[i
                + 2] as u64) * 256;
            proof {
                assert(bytes@.skip(i as int) =~= seq![
                    bytes@[i as int],
                    bytes@[i as int + 1],
                    bytes@[i as int + 2],
                ]);
                assert(bytes@.skip(i as int).skip(2) =~= seq![bytes@[i as int + 2]]);
                let w01 = (bytes@[i as int] as int) * 256 + (bytes@[i as int + 1] as int);
                let w2 = (bytes@[i as int + 2] as int) * 256;
                let t = w01 * 0x10000 + w2;
                assert(t == 0xffff * w01 + (w01 + w2));
                assert(sum_words(seq![bytes@[i as int + 2]]) == w2);
                assert(s == w01 + w2);
                lemma_mod_multiples_vanish(w01, w01 + w2, 0xffff);
                lemma_eqv_add(a0, a0, t, s);
            }
        }
    } else {
        proof {
            assert(bytes@.skip(i as int) =~= Seq::<u8>::empty());
        }
    }
    while acc > 0xffff
        invariant
            acc as int % 0xffff == total % 0xffff,
            (acc == 0) <==> (total == 0),
        decreases acc,
    {
        proof {
            lemma_carry_step32(acc as int);
            lemma_carry_fold_u64_decreases(acc as int);
        }
        acc = acc % 0x100000000 + acc / 0x100000000;
        proof {
            lemma_carry_step16(acc as int);
        }
        acc = acc % 0x10000 + acc / 0x10000;
    }
    proof {
        if total != 0 {
            assert(acc as int == 1 + (acc - 1) % 0xffff) by {
                lemma_mod_equivalence(acc as int, acc as int, 0xffff);
            }
            lemma_fold_carry_eqv(acc as int, total);
        }
    }
    (0xffff - acc) as u16
}

/// Computes the same checksum as [`checksum`].  The original accumulation
/// was distributed over worker threads; since 16-bit one's-complement
/// addition is commutative and associative, the distributed sum equals the
/// sequential one, which is what this function computes.
pub fn checksum_par(bytes: &[u8]) -> (r: u16)
    ensures
        r == checksum_spec(bytes@),
{
    checksum(bytes)
}

/// Computes the same checksum as [`checksum_by2`]; see [`checksum_par`] for
/// why the formerly distributed accumulation reduces to the sequential sum.
pub fn checksum_2_par(bytes: &[u8]) -> (r: u16)
    ensures
        r == checksum_spec(bytes@),
{
    checksum_by2(bytes)
}

/// Splitting a buffer at an even offset splits its word sum.
proof fn lemma_sum_words_append_even(a: Seq<u8>, t: Seq<u8>)
    requires
        a.len() % 2 == 0,
    ensures
        sum_words(a + t) == sum_words(a) + sum_words(t),
    decreases a.len(),
{
    if a.len() == 0 {
        assert(a + t =~= t);
    } else {
        assert((a + t)[0] == a[0]);
        assert((a + t)[1] == a[1]);
        assert((a + t).skip(2) =~= a.skip(2) + t);
        lemma_sum_words_append_even(a.skip(2), t);
    }
}

/// Checksum round trip: appending the big-endian bytes of a buffer's
/// checksum to that buffer (at a 16-bit word boundary, i.e. for buffers of
/// even length) yields a buffer whose checksum is zero.  For odd lengths the
/// appended bytes straddle the padded word and the law does not hold.
pub proof fn lemma_checksum_round_trip(b: Seq<u8>)
    requires
        b.len() % 2 == 0,
    ensures
        checksum_spec(b + seq![(checksum_spec(b) / 256) as u8, (checksum_spec(b) % 256) as u8])
            == 0,
{
    lemma_sum_words_nonneg(b);
    let s = sum_words(b);
    let c = checksum_spec(b) as int;
    let hi = c / 256;
    let lo = c % 256;
    let t = seq![(checksum_spec(b) / 256) as u8, (checksum_spec(b) % 256) as u8];
    lemma_fundamental_div_mod(c, 256);
    assert(0 <= c <= 0xffff) by {
        if s != 0 {
            lemma_mod_equivalence(s - 1, s - 1, 0xffff);
        }
    }
    assert(0 <= hi < 256 && 0 <= lo < 256) by {
        lemma_mod_equivalence(c, c, 256);
    }
    assert(sum_words(t) == hi * 256 + lo) by {
        assert(t.skip(2) =~= Seq::<u8>::empty());
        assert(sum_words(Seq::<u8>::empty()) == 0);
        assert(t[0] == hi as u8);
        assert(t[1] == lo as u8);
    }
    assert(sum_words(t) == c);
    lemma_sum_words_append_even(b, t);
    assert(sum_words(b + t) == s + c);
    if s == 0 {
        assert(fold_carry(s) == 0);
        assert(c == 0xffff);
        assert(fold_carry(s + c) == 1 + 0xfffeint % 0xffff);
        assert(checksum_spec(b + t) == 0);
    } else {
        let q = (s - 1) / 0xffff;
        let r = (s - 1) % 0xffff;
        lemma_fundamental_div_mod(s - 1, 0xffff);
        lemma_mod_equivalence(s - 1, s - 1, 0xffff);
        assert(fold_carry(s) == 1 + r);
        assert(c == 0xffff - 1 - r);
        assert(s + c == 0xffff * (q + 1));
        assert(s + c > 0);
        assert(fold_carry(s + c) == 1 + (0xffff * (q + 1) - 1) % 0xffff);
        assert((0xffff * (q + 1) + (-1)) % 0xffff == (-1) % 0xffff) by {
            lemma_mod_multiples_vanish(q + 1, -1, 0xffff);
        }
        assert((-1) % 0xffff == 0xfffe);
        assert(checksum_spec(b + t) == 0);
    }
}

/// The big-endian 16-bit value of two bytes.
pub open spec fn be16(hi: u8, lo: u8) -> int {
    (hi as int) * 0x100 + (lo as int)
}

/// The big-endian 32-bit value of four bytes.
pub open spec fn be32(b0: u8, b1: u8, b2: u8, b3: u8) -> int {
    (b0 as int) * 0x1000000 + (b1 as int) * 0x10000 + (b2 as int) * 0x100 + (b3 as int)
}

/// The IHL nibble of the IPv4 header starting at byte 14.
pub open spec fn ihl_spec(d: Seq<u8>) -> int {
    (d[14] as int) % 16
}

/// Offset of the transport header: 14 bytes of Ethernet plus IHL 32-bit
/// words of IP header.
pub open spec fn tcp_off_spec(d: Seq<u8>) -> int {
    14 + 4 * ihl_spec(d)
}

/// The version nibble of byte 14 is 4.
pub open spec fn is_ipv4_spec(d: Seq<u8>) -> bool {
    (d[14] as int) / 16 == 4
}

/// The SYN bit (bit 1) of a TCP flags byte.
pub open spec fn syn_spec(flags: u8) -> bool {
    (flags as int) / 2 % 2 == 1
}

/// The ACK bit (bit 4) of a TCP flags byte.
pub open spec fn ack_spec(flags: u8) -> bool {
    (flags as int) / 16 % 2 == 1
}

/// How the capture loop classifies a frame: IPv4 TCP by its SYN/ACK bits,
/// IPv4 UDP as a DNS response (the capture filter admits no other UDP), any
/// other IPv4 protocol as `Other`, and any non-IPv4 frame as `Ipv6(Other)`.
pub open spec fn classify_spec(d: Seq<u8>) -> Protocol {
    if !is_ipv4_spec(d) {
        Protocol::Ipv6(TransportProtocol::Other)
    } else if d[23] == 6 {
        let f = d[tcp_off_spec(d) + 13];
        if syn_spec(f) || ack_spec(f) {
            Protocol::Ipv4(TransportProtocol::TCP(TcpFlags::SynAck(syn_spec(f), ack_spec(f))))
        } else {
            Protocol::Ipv4(TransportProtocol::TCP(TcpFlags::Other))
        }
    } else if d[23] == 17 {
        Protocol::Ipv4(TransportProtocol::UDP(UdpProtocol::DNS))
    } else {
        Protocol::Ipv4(TransportProtocol::Other)
    }
}

/// True iff the frame's IP version nibble says IPv4.
pub fn is_ipv4(data: &[u8]) -> (r: bool)
    requires
        data@.len() >= 34,
    ensures
        r == is_ipv4_spec(data@),
{
    data[14] / 16 == 4
}

/// Extracts the SYN and ACK bits from the flags byte of a TCP header.
pub fn syn_ack_flags(tcp_header: &[u8]) -> (r: (bool, bool))
    requires
        tcp_header@.len() >= 14,
    ensures
        r.0 == syn_spec(tcp_header@[13]),
        r.1 == ack_spec(tcp_header@[13]),
{
    let flags = tcp_header[13];
    let ack = flags / 16 % 2 == 1;
    let syn = flags / 2 % 2 == 1;
    (syn, ack)
}

/// Offset of the transport header within the frame, from the IHL nibble.
pub(crate) fn tcp_header_idx(data: &[u8]) -> (r: u8)
    requires
        data@.len() >= 15,
    ensures
        r as int == tcp_off_spec(data@),
{
    let ihl = data[14] % 16;
    14 + ihl * 4
}

/// Classifies a frame as the capture loop routes it; see [`classify_spec`].
pub fn get_protocol(data: &[u8]) -> (r: Protocol)
    requires
        data@.len() >= 34,
        is_ipv4_spec(data@) && data@[23] == 6 ==> data@.len() >= tcp_off_spec(data@) + 14,
    ensures
        r == classify_spec(data@),
{
    if !is_ipv4(data) {
        return Protocol::Ipv6(TransportProtocol::Other);
    }
    let protocol = data[23];
    if protocol == 6 {
        let ix = tcp_header_idx(data);
        let (syn, ack) = syn_ack_flags(slice_subrange(data, ix as usize, data.len()));
        let transport = if syn || ack {
            TcpFlags::SynAck(syn, ack)
        } else {
            TcpFlags::Other
        };
        Protocol::Ipv4(TransportProtocol::TCP(transport))
    } else if protocol == 17 {
        Protocol::Ipv4(TransportProtocol::UDP(UdpProtocol::DNS))
    } else {
        Protocol::Ipv4(TransportProtocol::Other)
    }
}

/// The TCP event a frame carries:
/// `(src_ip, src_port, src_mac, dst_ip, dst_port, dst_mac)`, reading the
/// first six Ethernet bytes as the source MAC as the rest of the pipeline
/// does.
pub open spec fn event_spec(d: Seq<u8>) -> crate::filters::TcpEndpoints {
    (
        IpAddress::V4([d[26], d[27], d[28], d[29]]),
        be16(d[tcp_off_spec(d)], d[tcp_off_spec(d) + 1]) as u16,
        crate::addrs::mac_of(d.subrange(0, 6)),
        IpAddress::V4([d[30], d[31], d[32], d[33]]),
        be16(d[tcp_off_spec(d) + 2], d[tcp_off_spec(d) + 3]) as u16,
        crate::addrs::mac_of(d.subrange(6, 12)),
    )
}

/// Extracts the endpoint identifiers of an IPv4 TCP or UDP frame:
/// `(src_ip, src_port, src_mac, dst_ip, dst_port, dst_mac)`, taking the
/// first six Ethernet bytes as the source MAC as the rest of the pipeline
/// does.
pub fn src_dst_details(data: &[u8]) -> (r: (IpAddress, u16, MacAddr, IpAddress, u16, MacAddr))
    requires
        data@.len() >= 34,
        data@.len() >= tcp_off_spec(data@) + 4,
    ensures
        r.0 == IpAddress::V4([data@[26], data@[27], data@[28], data@[29]]),
        r.1 == be16(data@[tcp_off_spec(data@)], data@[tcp_off_spec(data@) + 1]),
        r.2@ == data@.subrange(0, 6),
        r.3 == IpAddress::V4([data@[30], data@[31], data@[32], data@[33]]),
        r.4 == be16(data@[tcp_off_spec(data@) + 2], data@[tcp_off_spec(data@) + 3]),
        r.5@ == data@.subrange(6, 12),
        r == event_spec(data@),
{
    let src_mac = MacAddr::build(&[data[0], data[1], data[2], data[3], data[4], data[5]]);
    let dst_mac = MacAddr::build(&[data[6], data[7], data[8], data[9], data[10], data[11]]);
    let src_ip = IpAddress::V4([data[26], data[27], data[28], data[29]]);
    let dst_ip = IpAddress::V4([data[30], data[31], data[32], data[33]]);
    let to = tcp_header_idx(data) as usize;
    let src_port = (data[to] as u16) * 0x100 + (data[to + 1] as u16);
    let dst_port = (data[to + 2] as u16) * 0x100 + (data[to + 3] as u16);
    proof {
        assert(src_mac@ =~= data@.subrange(0, 6));
        assert(dst_mac@ =~= data@.subrange(6, 12));
        crate::addrs::lemma_mac_of_view(data@.subrange(0, 6));
        crate::addrs::lemma_mac_of_view(data@.subrange(6, 12));
        crate::addrs::lemma_mac_eq(src_mac, crate::addrs::mac_of(data@.subrange(0, 6)));
        crate::addrs::lemma_mac_eq(dst_mac, crate::addrs::mac_of(data@.subrange(6, 12)));
    }
    (src_ip, src_port, src_mac, dst_ip, dst_port, dst_mac)
}

/// Extracts the sequence number, acknowledgement number and window size
/// from a TCP header.
pub fn tcp_details(tcp_header: &[u8]) -> (r: (u32, u32, u16))
    requires
        tcp_header@.len() >= 16,
    ensures
        r.0 == be32(tcp_header@[4], tcp_header@[5], tcp_header@[6], tcp_header@[7]),
        r.1 == be32(tcp_header@[8], tcp_header@[9], tcp_header@[10], tcp_header@[11]),
        r.2 == be16(tcp_header@[14], tcp_header@[15]),
{
    let seq_num = (tcp_header[4] as u32) * 0x1000000 + (tcp_header[5] as u32) * 0x10000 + (
    tcp_header[6] as u32) * 0x100 + (tcp_header[7] as u32);
    let ack_num = (tcp_header[8] as u32) * 0x1000000 + (tcp_header[9] as u32) * 0x10000 + (
    tcp_header[10] as u32) * 0x100 + (tcp_header[11] as u32);
    let window_size = (tcp_header[14] as u16) * 0x100 + (tcp_header[15] as u16);
    (seq_num, ack_num, window_size)
}

/// The sequence number carried by the forged RST: the observed sequence
/// number plus one (modulo the 32-bit sequence space) after a SYN, else the
/// observed acknowledgement number.
pub open spec fn rst_seq_num_spec(d: Seq<u8>, is_syn: bool) -> int {
    let to = tcp_off_spec(d);
    if is_syn {
        (be32(d[to + 4], d[to + 5], d[to + 6], d[to + 7]) + 1) % 0x100000000
    } else {
        be32(d[to + 8], d[to + 9], d[to + 10], d[to + 11])
    }
}

/// The 20-byte IPv4 header of the RST with its checksum field zeroed:
/// version 4, IHL 5, total length 40, identification 0x0650, DF set, TTL 60,
/// protocol TCP, source and destination IPs swapped relative to the observed
/// frame.
pub open spec fn rst_ip_header_zero_spec(d: Seq<u8>) -> Seq<u8> {
    seq![
        0x45u8,
        0x00,
        0x00,
        0x28,
        0x06,
        0x50,
        0x40,
        0x00,
        0x3c,
        0x06,
        0x00,
        0x00,
        d[30],
        d[31],
        d[32],
        d[33],
        d[26],
        d[27],
        d[28],
        d[29],
    ]
}

/// The 20-byte TCP header of the RST with its checksum field zeroed: ports
/// swapped, sequence number per [`rst_seq_num_spec`], acknowledgement zero,
/// data offset 5, flags RST only, observed window, urgent pointer zero.
pub open spec fn rst_tcp_header_zero_spec(d: Seq<u8>, is_syn: bool) -> Seq<u8> {
    let to = tcp_off_spec(d);
    let s = rst_seq_num_spec(d, is_syn);
    seq![
        d[to + 2],
        d[to + 3],
        d[to],
        d[to + 1],
        (s / 0x1000000) as u8,
        (s / 0x10000 % 0x100) as u8,
        (s / 0x100 % 0x100) as u8,
        (s % 0x100) as u8,
        0x00u8,
        0x00,
        0x00,
        0x00,
        0x50,
        0x04,
        d[to + 14],
        d[to + 15],
        0x00,
        0x00,
        0x00,
        0x00,
    ]
}

/// The IPv4 pseudo-header (RST source IP, RST destination IP, zero,
/// protocol 6, TCP length 20) followed by the zero-checksum TCP header; the
/// TCP checksum is computed over this buffer.
pub open spec fn rst_pseudo_spec(d: Seq<u8>, is_syn: bool) -> Seq<u8> {
    seq![d[30], d[31], d[32], d[33], d[26], d[27], d[28], d[29], 0x00u8, 0x06, 0x00, 0x14]
        + rst_tcp_header_zero_spec(d, is_syn)
}

/// The complete 54-byte RST frame forged from an observed frame: the
/// observed Ethernet addresses, type 0x0800, the IP and TCP headers above
/// with their checksums filled in.
pub open spec fn rst_frame_spec(d: Seq<u8>, is_syn: bool) -> Seq<u8> {
    let ipc = checksum_spec(rst_ip_header_zero_spec(d)) as int;
    let tcpc = checksum_spec(rst_pseudo_spec(d, is_syn)) as int;
    d.subrange(0, 12) + seq![0x08u8, 0x00] + rst_ip_header_zero_spec(d).update(
        10,
        (ipc / 0x100) as u8,
    ).update(11, (ipc % 0x100) as u8) + rst_tcp_header_zero_spec(d, is_syn).update(
        16,
        (tcpc / 0x100) as u8,
    ).update(17, (tcpc % 0x100) as u8)
}

/// Forges the 54-byte RST frame that closes the observed flow; the result
/// is exactly [`rst_frame_spec`] of the input.
pub fn build_rst_packet_from(data: &[u8], is_syn: bool) -> (r: Vec<u8>)
    requires
        data@.len() >= 34,
        data@.len() >= tcp_off_spec(data@) + 16,
    ensures
        r@ == rst_frame_spec(data@, is_syn),
{
    let to = tcp_header_idx(data) as usize;
    let (seq_num, ack_num, window_size) = tcp_details(
        slice_subrange(data, to, data.len()),
    );
    let rst_seq: u32 = if is_syn {
        seq_num.wrapping_add(1)
    } else {
        ack_num
    };
    proof {
        assert(rst_seq == rst_seq_num_spec(data@, is_syn)) by {
            if is_syn {
                let s = be32(
                    data@[tcp_off_spec(data@) + 4],
                    data@[tcp_off_spec(data@) + 5],
                    data@[tcp_off_spec(data@) + 6],
                    data@[tcp_off_spec(data@) + 7],
                );
                if s == 0xffffffff {
                    assert((s + 1) % 0x100000000 == 0) by {
                        lemma_mod_equivalence(s + 1, s + 1, 0x100000000);
                    }
                } else {
                    assert((s + 1) % 0x100000000 == s + 1) by {
                        lemma_mod_equivalence(s + 1, s + 1, 0x100000000);
                    }
                }
            }
        }
    }
    let s0 = (rst_seq / 0x1000000) as u8;
    let s1 = (rst_seq / 0x10000 % 0x100) as u8;
    let s2 = (rst_seq / 0x100 % 0x100) as u8;
    let s3 = (rst_seq % 0x100) as u8;

    let mut ipz: Vec<u8> = Vec::new();
    ipz.push(0x45);
    ipz.push(0x00);
    ipz.push(0x00);
    ipz.push(0x28);
    ipz.push(0x06);
    ipz.push(0x50);
    ipz.push(0x40);
    ipz.push(0x00);
    ipz.push(0x3c);
    ipz.push(0x06);
    ipz.push(0x00);
    ipz.push(0x00);
    ipz.push(data[30]);
    ipz.push(data[31]);
    ipz.push(data[32]);
    ipz.push(data[33]);
    ipz.push(data[26]);
    ipz.push(data[27]);
    ipz.push(data[28]);
    ipz.push(data[29]);
    proof {
        assert(ipz@ =~= rst_ip_header_zero_spec(data@));
    }
    let ip_chk = checksum(ipz.as_slice());

    let mut tcpz: Vec<u8> = Vec::new();
    tcpz.push(data[to + 2]);
    tcpz.push(data[to + 3]);
    tcpz.push(data[to]);
    tcpz.push(data[to + 1]);
    tcpz.push(s0);
    tcpz.push(s1);
    tcpz.push(s2);
    tcpz.push(s3);
    tcpz.push(0x00);
    tcpz.push(0x00);
    tcpz.push(0x00);
    tcpz.push(0x00);
    tcpz.push(0x50);
    tcpz.push(0x04);
    tcpz.push(data[to + 14]);
    tcpz.push(data[to + 15]);
    tcpz.push(0x00);
    tcpz.push(0x00);
    tcpz.push(0x00);
    tcpz.push(0x00);
    proof {
        assert(tcpz@ =~= rst_tcp_header_zero_spec(data@, is_syn));
    }

    let mut pseudo: Vec<u8> = Vec::new();
    pseudo.push(data[30]);
    pseudo.push(data[31]);
    pseudo.push(data[32]);
    pseudo.push(data[33]);
    pseudo.push(data[26]);
    pseudo.push(data[27]);
    pseudo.push(data[28]);
    pseudo.push(data[29]);
    pseudo.push(0x00);
    pseudo.push(0x06);
    pseudo.push(0x00);
    pseudo.push(0x14);
    let mut k: usize = 0;
    while k < 20
        invariant
            tcpz@.len() == 20,
            k <= 20,
            pseudo@ == seq![
                data@[30],
                data@[31],
                data@[32],
                data@[33],
                data@[26],
                data@[27],
                data@[28],
                data@[29],
                0x00u8,
                0x06,
                0x00,
                0x14,
            ] + tcpz@.take(k as int),
        decreases 20 - k,
    {
        pseudo.push(tcpz[k]);
        proof {
            assert(tcpz@.take(k + 1 as int) =~= tcpz@.take(k as int).push(tcpz@[k as int]));
        }
        k = k + 1;
    }
    proof {
        assert(tcpz@.take(20) =~= tcpz@);
        assert(pseudo@ =~= rst_pseudo_spec(data@, is_syn));
    }
    let tcp_chk = checksum(pseudo.as_slice());

    let mut pkt: Vec<u8> = Vec::new();
    let mut k2: usize = 0;
    while k2 < 12
        invariant
            data@.len() >= 34,
            k2 <= 12,
            pkt@ == data@.take(k2 as int),
        decreases 12 - k2,
    {
        pkt.push(data[k2]);
        proof {
            assert(data@.take(k2 + 1 as int) =~= data@.take(k2 as int).push(data@[k2 as int]));
        }
        k2 = k2 + 1;
    }
    pkt.push(0x08);
    pkt.push(0x00);
    let mut k3: usize = 0;
    while k3 < 20
        invariant
            ipz@.len() == 20,
            data@.len() >= 34,
            k3 <= 20,
            pkt@ == data@.take(12) + seq![0x08u8, 0x00] + ipz@.update(
                10,
                ((ip_chk as int) / 0x100) as u8,
            ).update(11, ((ip_chk as int) % 0x100) as u8).take(k3 as int),
        decreases 20 - k3,
    {
        let b = if k3 == 10 {
            (ip_chk / 0x100) as u8
        } else if k3 == 11 {
            (ip_chk % 0x100) as u8
        } else {
            ipz[k3]
        };
        pkt.push(b);
        proof {
            let upd = ipz@.update(10, ((ip_chk as int) / 0x100) as u8).update(
                11,
                ((ip_chk as int) % 0x100) as u8,
            );
            assert(upd.take(k3 + 1 as int) =~= upd.take(k3 as int).push(upd[k3 as int]));
        }
        k3 = k3 + 1;
    }
    let mut k4: usize = 0;
    while k4 < 20
        invariant
            tcpz@.len() == 20,
            ipz@.len() == 20,
            data@.len() >= 34,
            k4 <= 20,
            pkt@ == data@.take(12) + seq![0x08u8, 0x00] + ipz@.update(
                10,
                ((ip_chk as int) / 0x100) as u8,
            ).update(11, ((ip_chk as int) % 0x100) as u8) + tcpz@.update(
                16,
                ((tcp_chk as int) / 0x100) as u8,
            ).update(17, ((tcp_chk as int) % 0x100) as u8).take(k4 as int),
        decreases 20 - k4,
    {
        let b = if k4 == 16 {
            (tcp_chk / 0x100) as u8
        } else if k4 == 17 {
            (tcp_chk % 0x100) as u8
        } else {
            tcpz[k4]
        };
        pkt.push(b);
        proof {
            let upd = tcpz@.update(16, ((tcp_chk as int) / 0x100) as u8).update(
                17,
                ((tcp_chk as int) % 0x100) as u8,
            );
            assert(upd.take(k4 + 1 as int) =~= upd.take(k4 as int).push(upd[k4 as int]));
        }
        k4 = k4 + 1;
    }
    proof {
        assert(data@.take(12) =~= data@.subrange(0, 12));
        let ipupd = ipz@.update(10, ((ip_chk as int) / 0x100) as u8).update(
            11,
            ((ip_chk as int) % 0x100) as u8,
        );
        let tcpupd = tcpz@.update(16, ((tcp_chk as int) / 0x100) as u8).update(
            17,
            ((tcp_chk as int) % 0x100) as u8,
        );
        assert(ipupd.take(20) =~= ipupd);
        assert(tcpupd.take(20) =~= tcpupd);
        assert(pkt@ =~= rst_frame_spec(data@, is_syn));
    }
    pkt
}

/// Derivation symmetry of the forged RST: it echoes the observed Ethernet
/// addresses, swaps the observed IP addresses and TCP ports, carries IP
/// total length 40 and a TCP flags byte with only RST set.
pub proof fn lemma_rst_symmetry(d: Seq<u8>, is_syn: bool)
    requires
        d.len() >= 34,
        d.len() >= tcp_off_spec(d) + 16,
    ensures
        rst_frame_spec(d, is_syn).len() == 54,
        rst_frame_spec(d, is_syn).subrange(0, 6) == d.subrange(0, 6),
        rst_frame_spec(d, is_syn).subrange(6, 12) == d.subrange(6, 12),
        rst_frame_spec(d, is_syn).subrange(26, 30) == d.subrange(30, 34),
        rst_frame_spec(d, is_syn).subrange(30, 34) == d.subrange(26, 30),
        rst_frame_spec(d, is_syn).subrange(34, 36) == d.subrange(
            tcp_off_spec(d) + 2,
            tcp_off_spec(d) + 4,
        ),
        rst_frame_spec(d, is_syn).subrange(36, 38) == d.subrange(
            tcp_off_spec(d),
            tcp_off_spec(d) + 2,
        ),
        be16(rst_frame_spec(d, is_syn)[16], rst_frame_spec(d, is_syn)[17]) == 40,
        rst_frame_spec(d, is_syn)[47] == 0x04,
{
    let r = rst_frame_spec(d, is_syn);
    assert(r.subrange(0, 6) =~= d.subrange(0, 6));
    assert(r.subrange(6, 12) =~= d.subrange(6, 12));
    assert(r.subrange(26, 30) =~= d.subrange(30, 34));
    assert(r.subrange(30, 34) =~= d.subrange(26, 30));
    assert(r.subrange(34, 36) =~= d.subrange(tcp_off_spec(d) + 2, tcp_off_spec(d) + 4));
    assert(r.subrange(36, 38) =~= d.subrange(tcp_off_spec(d), tcp_off_spec(d) + 2));
}

/// The combined 32-bit and 16-bit carry steps strictly shrink any
/// accumulator above 0xffff.
proof fn lemma_carry_fold_u64_decreases(x: int)
    requires
        x > 0xffff,
    ensures
        (x % 0x100000000 + x / 0x100000000) % 0x10000 + (x % 0x100000000 + x / 0x100000000)
            / 0x10000 < x,
{
    lemma_fundamental_div_mod(x, 0x100000000);
    lemma_mod_equivalence(x, x, 0x100000000);
    let y = x % 0x100000000 + x / 0x100000000;
    lemma_fundamental_div_mod(y, 0x10000);
    lemma_mod_equivalence(y, y, 0x10000);
}

} // verus!
