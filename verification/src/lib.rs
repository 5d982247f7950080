//! In-line TCP connection interceptor core.
//!
//! The library parses Ethernet/IPv4 frames from raw capture buffers, computes
//! RFC 1071 Internet checksums, forges TCP RST frames, harvests DNS answers
//! into an IP-to-hostname map, compiles a declarative rule set, and decides
//! for every observed TCP event whether the flow is reset, monitored, or
//! ignored.  All logic here is verified; raw capture, logging and reverse-DNS
//! I/O live with the surrounding application.

pub mod addrs;
pub mod capture;
pub mod configs;
pub mod domains;
pub mod errors;
pub mod filters;
pub mod packet_utils;
pub mod regexes;
