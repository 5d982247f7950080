use interceptor::addrs::{IpAddress, MacAddr};
use interceptor::domains::Resolved;
use interceptor::errors::ConfigError;
use interceptor::filters::{Blacklist, Decision, Filter, HostFilter, PacketAction};
use interceptor::regexes::CompiledRegex;

enum FilterType {
    WildCard,
    Regex,
    IncludeIPs,
    ExcludeIPs,
}

fn create_filter(src: FilterType, dst: FilterType, kill: bool) -> Filter {
    let default = |c: FilterType| {
        let ip_vec = vec![
            IpAddress::parse("192.235.32.2").unwrap(),
            IpAddress::parse("192.255.32.2").unwrap(),
            IpAddress::parse("193.255.32.2").unwrap(),
        ];
        let rgx = CompiledRegex::compile("(httpbin|lobste)").unwrap();
        match c {
            FilterType::WildCard => HostFilter::WildCard,
            FilterType::Regex => HostFilter::Regex(rgx),
            FilterType::IncludeIPs => HostFilter::IncludeIPs(ip_vec),
            FilterType::ExcludeIPs => HostFilter::ExcludeIPs(ip_vec),
        }
    };

    Filter {
        src: default(src),
        dst: default(dst),
        mode: if kill { PacketAction::Reset } else { PacketAction::Monitor },
    }
}

#[test]
fn similar_filters_are_equal() {
    let a = create_filter(FilterType::WildCard, FilterType::Regex, true);
    let b = create_filter(FilterType::Regex, FilterType::WildCard, true);
    assert!(a == b);
}

#[test]
fn wildcard_beats_list() {
    let a = create_filter(FilterType::WildCard, FilterType::WildCard, true);
    let b = create_filter(FilterType::WildCard, FilterType::IncludeIPs, true);
    assert!(a < b);
}

#[test]
fn similar_macs_are_equal() {
    let mac = "84:c5:a6:15:29:d0";
    let a = MacAddr::try_from(mac).unwrap();
    let b = MacAddr::build(&[0x84, 0xc5, 0xa6, 0x15, 0x29, 0xd0]);
    assert_eq!(a, b);
}

#[test]
fn different_macs_are_not_equal() {
    let mac = "84:c5:a6:15:29:d0";
    let a = MacAddr::try_from(mac).unwrap();
    let b = MacAddr::build(&[0x54, 0xc5, 0xa6, 0x15, 0x29, 0xd0]);
    assert_ne!(a, b);
}

#[test]
#[should_panic(expected = "InvalidMac")]
fn panics_on_invalid_str_to_mac() {
    let mac = "84:c5:a6:15:2z:d0";
    let _val = MacAddr::try_from(mac).unwrap();
}

#[test]
fn mac_parse_rejects_bad_octet() {
    assert!(matches!(
        MacAddr::try_from("84:c5:a6:15:2z:d0"),
        Err(ConfigError::InvalidMac(_))
    ));
    assert!(matches!(MacAddr::try_from("84:c5:a6:15:29"), Err(ConfigError::InvalidMac(_))));
}

#[test]
fn mac_render_round_trip() {
    let a = MacAddr::build(&[0x84, 0xc5, 0xa6, 0x15, 0x29, 0xd0]);
    let text = a.render();
    assert_eq!(text, "84:C5:A6:15:29:D0");
    let b = MacAddr::try_from(text.as_str()).unwrap();
    assert_eq!(a, b);
}

#[test]
fn weights_follow_specificity() {
    assert_eq!(HostFilter::WildCard.get_sort_val(), 0);
    assert_eq!(HostFilter::IncludeIPs(vec![]).get_sort_val(), 1);
    assert_eq!(HostFilter::ExcludeIPs(vec![]).get_sort_val(), 1);
    assert_eq!(HostFilter::IncludeMACs(vec![]).get_sort_val(), 2);
    assert_eq!(HostFilter::ExcludeMACs(vec![]).get_sort_val(), 2);
    let rgx = CompiledRegex::compile("x").unwrap();
    assert_eq!(HostFilter::Regex(rgx).get_sort_val(), 4);
}

#[test]
fn decide_is_deterministic() {
    let rules = vec![Filter {
        src: HostFilter::WildCard,
        dst: HostFilter::WildCard,
        mode: PacketAction::Monitor,
    }];
    let bl = Blacklist::build(rules);
    let learner = Resolved::build();
    let mac = MacAddr::build(&[0, 1, 2, 3, 4, 5]);
    let ev = (
        IpAddress::parse("1.2.3.4").unwrap(),
        40000u16,
        mac,
        IpAddress::parse("5.6.7.8").unwrap(),
        80u16,
        mac,
    );
    let lookups: Vec<(IpAddress, Option<String>)> = Vec::new();
    let r1 = bl.get_packet_action(ev, &learner, &lookups);
    let r2 = bl.get_packet_action(ev, &learner, &lookups);
    assert!(matches!(r1, Decision::Act(PacketAction::Monitor, 0)));
    assert!(matches!(r2, Decision::Act(PacketAction::Monitor, 0)));
}

#[test]
fn decide_is_deterministic_even_when_a_lookup_is_needed() {
    let rgx = CompiledRegex::compile("example").unwrap();
    let rules = vec![Filter {
        src: HostFilter::Regex(rgx),
        dst: HostFilter::WildCard,
        mode: PacketAction::Reset,
    }];
    let bl = Blacklist::build(rules);
    let learner = Resolved::build();
    let mac = MacAddr::build(&[0; 6]);
    let src = IpAddress::parse("1.2.3.4").unwrap();
    let ev = (src, 1u16, mac, IpAddress::parse("5.6.7.8").unwrap(), 2u16, mac);
    let lookups: Vec<(IpAddress, Option<String>)> = Vec::new();
    let r1 = bl.get_packet_action(ev, &learner, &lookups);
    let r2 = bl.get_packet_action(ev, &learner, &lookups);
    match (r1, r2) {
        (Decision::NeedLookup(a), Decision::NeedLookup(b)) => {
            assert_eq!(a, src);
            assert_eq!(b, src);
        },
        _ => panic!("expected matching lookup requests"),
    }
}

#[test]
fn exclude_ips_matches_whenever_two_entries_differ() {
    // the exclusion predicate holds for every IP once the list has two
    // distinct entries; it equals true exclusion only for one-entry lists
    let listed = IpAddress::parse("10.0.0.1").unwrap();
    let other = IpAddress::parse("10.0.0.2").unwrap();
    let rules = vec![Filter {
        src: HostFilter::ExcludeIPs(vec![listed, other]),
        dst: HostFilter::WildCard,
        mode: PacketAction::Reset,
    }];
    let bl = Blacklist::build(rules);
    let learner = Resolved::build();
    let mac = MacAddr::build(&[0; 6]);
    let lookups: Vec<(IpAddress, Option<String>)> = Vec::new();
    // even an IP in the list is "excluded" because the other entry differs
    let ev = (listed, 1u16, mac, other, 2u16, mac);
    assert!(matches!(bl.get_packet_action(ev, &learner, &lookups), Decision::Act(PacketAction::Reset, _)));

    let single = vec![Filter {
        src: HostFilter::ExcludeIPs(vec![listed]),
        dst: HostFilter::WildCard,
        mode: PacketAction::Reset,
    }];
    let bl2 = Blacklist::build(single);
    let ev2 = (listed, 1u16, mac, other, 2u16, mac);
    assert!(matches!(bl2.get_packet_action(ev2, &learner, &lookups), Decision::Act(PacketAction::Ignore, _)));
}

#[test]
fn regex_via_learner_and_fallback() {
    let target = IpAddress::parse("93.184.216.34").unwrap();
    let src = IpAddress::parse("10.0.0.1").unwrap();
    let mac = MacAddr::build(&[0; 6]);
    let rgx = CompiledRegex::compile("example").unwrap();
    let rules = vec![Filter {
        src: HostFilter::WildCard,
        dst: HostFilter::Regex(rgx),
        mode: PacketAction::Monitor,
    }];
    let bl = Blacklist::build(rules);
    let lookups: Vec<(IpAddress, Option<String>)> = Vec::new();

    let mut learner = Resolved::build();
    learner.insert(target, String::from("example.com"));
    let ev = (src, 1234u16, mac, target, 443u16, mac);
    assert!(matches!(bl.get_packet_action(ev, &learner, &lookups), Decision::Act(PacketAction::Monitor, _)));

    // empty learner: the engine first asks for a reverse lookup of the
    // destination; a recorded miss then falls back to the rendered IP,
    // which the pattern does not match
    let empty = Resolved::build();
    match bl.get_packet_action(ev, &empty, &lookups) {
        Decision::NeedLookup(ip) => assert_eq!(ip, target),
        _ => panic!("expected a lookup request"),
    }
    let answered: Vec<(IpAddress, Option<String>)> = vec![(target, None)];
    assert!(matches!(bl.get_packet_action(ev, &empty, &answered), Decision::Act(PacketAction::Ignore, _)));
}

#[test]
fn regex_matches_rendered_ip_text() {
    let target = IpAddress::parse("93.184.216.34").unwrap();
    let src = IpAddress::parse("10.0.0.1").unwrap();
    let mac = MacAddr::build(&[0; 6]);
    let rgx = CompiledRegex::compile("^93\\.184\\.").unwrap();
    let rules = vec![Filter {
        src: HostFilter::WildCard,
        dst: HostFilter::Regex(rgx),
        mode: PacketAction::Reset,
    }];
    let bl = Blacklist::build(rules);
    let empty = Resolved::build();
    let answered: Vec<(IpAddress, Option<String>)> = vec![(target, None)];
    let ev = (src, 1234u16, mac, target, 443u16, mac);
    assert!(matches!(bl.get_packet_action(ev, &empty, &answered), Decision::Act(PacketAction::Reset, _)));
}

#[test]
fn no_rule_matches_means_ignore() {
    let listed = IpAddress::parse("10.0.0.9").unwrap();
    let rules = vec![Filter {
        src: HostFilter::IncludeIPs(vec![listed]),
        dst: HostFilter::WildCard,
        mode: PacketAction::Reset,
    }];
    let bl = Blacklist::build(rules);
    let learner = Resolved::build();
    let mac = MacAddr::build(&[0; 6]);
    let lookups: Vec<(IpAddress, Option<String>)> = Vec::new();
    let ev = (
        IpAddress::parse("1.2.3.4").unwrap(),
        1u16,
        mac,
        IpAddress::parse("5.6.7.8").unwrap(),
        2u16,
        mac,
    );
    assert!(matches!(bl.get_packet_action(ev, &learner, &lookups), Decision::Act(PacketAction::Ignore, _)));
}

#[test]
fn mac_rules_match_by_value() {
    let mac = MacAddr::try_from("84:c5:a6:15:29:d0").unwrap();
    let other = MacAddr::build(&[1, 2, 3, 4, 5, 6]);
    let rules = vec![Filter {
        src: HostFilter::IncludeMACs(vec![mac]),
        dst: HostFilter::WildCard,
        mode: PacketAction::Reset,
    }];
    let bl = Blacklist::build(rules);
    let learner = Resolved::build();
    let lookups: Vec<(IpAddress, Option<String>)> = Vec::new();
    let src = IpAddress::parse("1.1.1.1").unwrap();
    let dst = IpAddress::parse("2.2.2.2").unwrap();
    let hit = (src, 1u16, MacAddr::build(&[0x84, 0xc5, 0xa6, 0x15, 0x29, 0xd0]), dst, 2u16, other);
    assert!(matches!(bl.get_packet_action(hit, &learner, &lookups), Decision::Act(PacketAction::Reset, _)));
    let miss = (src, 1u16, other, dst, 2u16, other);
    assert!(matches!(bl.get_packet_action(miss, &learner, &lookups), Decision::Act(PacketAction::Ignore, _)));
}
