//! Per-frame routing: what the capture loop does with one delivered frame.
//! The surrounding application reads frames, performs the returned action
//! (inject the forged RST, emit the monitor log line, or reverse-resolve
//! the named IP and call again with the answer recorded), and owns nothing
//! else of the decision.

use crate::addrs::IpAddress;
use crate::domains::{absorb_spec, dns_answers, Resolved};
use crate::filters::{
    decide_spec, first_match_idx, lookup_needed, names_known, no_lookup_needed, Blacklist,
    Decision, PacketAction,
};
use crate::packet_utils::{
    build_rst_packet_from, classify_spec, event_spec, get_protocol, is_ipv4, rst_frame_spec,
    src_dst_details, tcp_header_idx, tcp_off_spec, Protocol, TcpFlags, TransportProtocol,
    UdpProtocol,
};
use vstd::prelude::*;

verus! {

/// What the application must do with one frame.
#[derive(Debug)]
pub enum FrameOutcome {
    /// Inject this forged RST frame.
    SendRst(Vec<u8>),
    /// Log the monitored source and destination pair and the index of the
    /// matching rule in the ordered list.
    Monitor(IpAddress, IpAddress, usize),
    /// Reverse-resolve this IP, record the answer, and hand the frame in
    /// again.
    NeedLookup(IpAddress),
    /// The frame was too short to decode; log at debug level and drop it.
    Dropped,
    /// A DNS response frame did not parse; log at error level and drop it.
    DnsError,
    /// Nothing to do: the frame was ignored or only fed the learner.
    Nothing,
}

/// Routes one captured frame: a too-short frame is dropped; an IPv4 TCP
/// frame with SYN or ACK set is decided against the rules, yielding a
/// forged RST, a monitor record, or nothing; an IPv4 UDP frame feeds the
/// DNS learner; everything else is ignored.
pub fn handle_frame(
    bl: &Blacklist,
    learner: &mut Resolved,
    data: &[u8],
    lookups: &Vec<(IpAddress, Option<String>)>,
) -> (r: FrameOutcome)
    ensures
        data@.len() < 34 ==> r is Dropped && final(learner)@ == old(learner)@,
        data@.len() >= 34 ==> match classify_spec(data@) {
            Protocol::Ipv4(TransportProtocol::TCP(tf)) => {
                &&& (data@.len() < tcp_off_spec(data@) + 16 ==> r is Dropped && final(learner)@
                    == old(learner)@)
                &&& (data@.len() >= tcp_off_spec(data@) + 16 ==> final(learner)@ == old(
                    learner,
                )@ && (match tf {
                    TcpFlags::Other => r is Nothing,
                    TcpFlags::SynAck(syn, _ack) => match r {
                    FrameOutcome::SendRst(p) => decide_spec(
                        bl@,
                        event_spec(data@),
                        old(learner)@,
                        lookups@,
                    ) == PacketAction::Reset && p@ == rst_frame_spec(data@, syn)
                        && no_lookup_needed(bl@, event_spec(data@), old(learner)@, lookups@),
                    FrameOutcome::Monitor(s, d, idx) => decide_spec(
                        bl@,
                        event_spec(data@),
                        old(learner)@,
                        lookups@,
                    ) == PacketAction::Monitor && s == event_spec(data@).0 && d == event_spec(
                        data@,
                    ).3 && idx == first_match_idx(bl@, event_spec(data@), old(learner)@, lookups@)
                        && no_lookup_needed(bl@, event_spec(data@), old(learner)@, lookups@),
                    FrameOutcome::NeedLookup(ip) => (ip == event_spec(data@).0 || ip
                        == event_spec(data@).3) && !names_known(old(learner)@, lookups@, ip)
                        && lookup_needed(bl@, event_spec(data@), old(learner)@, lookups@, ip),
                    FrameOutcome::Nothing => decide_spec(
                        bl@,
                        event_spec(data@),
                        old(learner)@,
                        lookups@,
                    ) == PacketAction::Ignore && no_lookup_needed(
                        bl@,
                        event_spec(data@),
                        old(learner)@,
                        lookups@,
                    ),
                    FrameOutcome::Dropped => false,
                    FrameOutcome::DnsError => false,
                },
                }))
            },
            Protocol::Ipv4(TransportProtocol::UDP(UdpProtocol::DNS)) => (data@.len() >= 42
                ==> match dns_answers(data@.skip(42)) {
                Some(ans) => r is Nothing && final(learner)@ == absorb_spec(old(learner)@, ans),
                None => r is DnsError && final(learner)@ == old(learner)@,
            }) && (data@.len() < 42 ==> r is DnsError && final(learner)@ == old(learner)@),
            _ => r is Nothing && final(learner)@ == old(learner)@,
        },
{
    if data.len() < 34 {
        return FrameOutcome::Dropped;
    }
    if is_ipv4(data) && data[23] == 6 {
        let toff = tcp_header_idx(data) as usize;
        if data.len() < toff + 16 {
            return FrameOutcome::Dropped;
        }
    }
    let proto = get_protocol(data);
    match proto {
        Protocol::Ipv4(TransportProtocol::TCP(TcpFlags::SynAck(syn, _ack))) => {
            let ev = src_dst_details(data);
            match bl.get_packet_action(ev, learner, lookups) {
                Decision::NeedLookup(ip) => FrameOutcome::NeedLookup(ip),
                Decision::Act(PacketAction::Ignore, _) => FrameOutcome::Nothing,
                Decision::Act(PacketAction::Monitor, idx) => FrameOutcome::Monitor(
                    ev.0,
                    ev.3,
                    idx,
                ),
                Decision::Act(PacketAction::Reset, _) => {
                    let rst = build_rst_packet_from(data, syn);
                    FrameOutcome::SendRst(rst)
                },
            }
        },
        Protocol::Ipv4(TransportProtocol::UDP(UdpProtocol::DNS)) => {
            if learner.update_from_dns(data) {
                FrameOutcome::Nothing
            } else {
                FrameOutcome::DnsError
            }
        },
        _ => FrameOutcome::Nothing,
    }
}

} // verus!
