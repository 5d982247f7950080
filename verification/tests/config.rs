use interceptor::addrs::IpAddress;
use interceptor::configs::{Config, ConfigValue, Interface, LogLevel};
use interceptor::errors::ConfigError;
use interceptor::filters::{Blacklist, Decision, PacketAction};
use interceptor::{addrs::MacAddr, domains::Resolved};

fn text(s: &str) -> ConfigValue {
    ConfigValue::Text(String::from(s))
}

fn texts(items: &[&str]) -> ConfigValue {
    ConfigValue::Array(items.iter().map(|s| text(s)).collect())
}

fn table(entries: Vec<(&str, ConfigValue)>) -> ConfigValue {
    ConfigValue::Table(entries.into_iter().map(|(k, v)| (String::from(k), v)).collect())
}

fn root_with_filters(filters: Vec<ConfigValue>) -> ConfigValue {
    table(vec![("filter", ConfigValue::Array(filters))])
}

#[test]
fn rule_ordering_by_weight() {
    // three rules: a wildcard, a source IP list, a source regex; they
    // compile to weights 0, 1, 4 in that order
    let root = root_with_filters(vec![
        table(vec![("mode", text("reset"))]),
        table(vec![("src", texts(&["1.1.1.1"])), ("mode", text("reset"))]),
        table(vec![("src_regex", text("ex")), ("mode", text("reset"))]),
    ]);
    let cfg = Config::build(&root).unwrap();
    let weights: Vec<u8> = cfg
        .filter
        .iter()
        .map(|f| f.src.get_sort_val() + f.dst.get_sort_val())
        .collect();
    assert_eq!(weights, vec![0, 1, 4]);
}

#[test]
fn rule_ordering_is_ascending_when_given_reversed() {
    let root = root_with_filters(vec![
        table(vec![("src_regex", text("ex"))]),
        table(vec![("src_mac", texts(&["84:c5:a6:15:29:d0"]))]),
        table(vec![("src", texts(&["1.1.1.1"]))]),
        table(vec![]),
    ]);
    let cfg = Config::build(&root).unwrap();
    let weights: Vec<u8> = cfg
        .filter
        .iter()
        .map(|f| f.src.get_sort_val() + f.dst.get_sort_val())
        .collect();
    assert_eq!(weights, vec![0, 1, 2, 4]);
}

#[test]
fn decide_wildcard_first() {
    // with the ordered list above, the wildcard rule shadows the rest
    let root = root_with_filters(vec![
        table(vec![("mode", text("reset"))]),
        table(vec![("src", texts(&["1.1.1.1"])), ("mode", text("reset"))]),
        table(vec![("src_regex", text("ex")), ("mode", text("reset"))]),
    ]);
    let cfg = Config::build(&root).unwrap();
    let bl = Blacklist::build(cfg.filter);
    let learner = Resolved::build();
    let mac = MacAddr::build(&[0; 6]);
    let ev = (
        IpAddress::parse("1.2.3.4").unwrap(),
        1111u16,
        mac,
        IpAddress::parse("5.6.7.8").unwrap(),
        80u16,
        mac,
    );
    let lookups: Vec<(IpAddress, Option<String>)> = Vec::new();
    assert!(matches!(bl.get_packet_action(ev, &learner, &lookups), Decision::Act(PacketAction::Reset, _)));
}

#[test]
fn mutual_exclusion_is_rejected() {
    let root = root_with_filters(vec![table(vec![
        ("src", texts(&["1.1.1.1"])),
        ("src_regex", text("ex")),
    ])]);
    assert!(matches!(Config::build(&root), Err(ConfigError::MultipleFiltersFound)));

    let root2 = root_with_filters(vec![table(vec![
        ("dst_exclude", texts(&["1.1.1.1"])),
        ("dst_regex", text("ex")),
    ])]);
    assert!(matches!(Config::build(&root2), Err(ConfigError::MultipleFiltersFound)));
}

#[test]
fn missing_or_empty_filters_are_rejected() {
    let root = table(vec![]);
    assert!(matches!(Config::build(&root), Err(ConfigError::NoFiltersFound)));
    let root2 = root_with_filters(vec![]);
    assert!(matches!(Config::build(&root2), Err(ConfigError::NoFiltersFound)));
}

#[test]
fn bad_values_name_their_error() {
    let not_a_list = root_with_filters(vec![table(vec![("src", text("1.1.1.1"))])]);
    assert!(matches!(Config::build(&not_a_list), Err(ConfigError::ExpectedAList)));

    let not_a_string = root_with_filters(vec![table(vec![(
        "src",
        ConfigValue::Array(vec![ConfigValue::Integer(7)]),
    )])]);
    assert!(matches!(Config::build(&not_a_string), Err(ConfigError::FailedToParse(_))));

    let not_an_ip = root_with_filters(vec![table(vec![("src", texts(&["just-a-name"]))])]);
    assert!(matches!(Config::build(&not_an_ip), Err(ConfigError::FailedToParseAsIp(_))));

    let bad_mac = root_with_filters(vec![table(vec![("src_mac", texts(&["84:c5:zz:15:29:d0"]))])]);
    assert!(matches!(Config::build(&bad_mac), Err(ConfigError::InvalidMac(_))));

    let bad_mode = root_with_filters(vec![table(vec![("mode", text("zap"))])]);
    assert!(matches!(Config::build(&bad_mode), Err(ConfigError::UnknownMode(_))));

    let bad_regex = root_with_filters(vec![table(vec![("src_regex", text("(unclosed"))])]);
    assert!(matches!(Config::build(&bad_regex), Err(ConfigError::InvalidRegex(_))));

    let not_a_table = ConfigValue::Integer(3);
    assert!(matches!(Config::build(&not_a_table), Err(ConfigError::FailedToParse(_))));
}

#[test]
fn device_and_log_sections() {
    let root = table(vec![
        ("device", table(vec![("interface", text("wlp0s20f3"))])),
        (
            "log",
            table(vec![("log-level", text("warning")), ("log-file", text("/tmp/l"))]),
        ),
        ("filter", ConfigValue::Array(vec![table(vec![])])),
    ]);
    let cfg = Config::build(&root).unwrap();
    match cfg.interface {
        Interface::Named(name) => assert_eq!(name, "wlp0s20f3"),
        Interface::Lookup => panic!("expected a named interface"),
    }
    assert_eq!(cfg.log.log_level, Some(LogLevel::Warning));
    assert_eq!(cfg.log.log_file.as_deref(), Some("/tmp/l"));

    let defaulted = root_with_filters(vec![table(vec![])]);
    let cfg2 = Config::build(&defaulted).unwrap();
    assert!(matches!(cfg2.interface, Interface::Lookup));
    assert_eq!(cfg2.log.log_level, Some(LogLevel::Info));
    assert!(cfg2.log.log_file.is_none());
}

#[test]
fn log_level_off_and_unknown() {
    let off = table(vec![
        ("log", table(vec![("log-level", text("off"))])),
        ("filter", ConfigValue::Array(vec![table(vec![])])),
    ]);
    let cfg = Config::build(&off).unwrap();
    assert_eq!(cfg.log.log_level, None);

    let loud = table(vec![
        ("log", table(vec![("log-level", text("loud"))])),
        ("filter", ConfigValue::Array(vec![table(vec![])])),
    ]);
    assert!(matches!(Config::build(&loud), Err(ConfigError::InvalidLogLevel(_))));
}

#[test]
fn ip_literals_parse_both_families() {
    assert_eq!(
        IpAddress::parse("10.0.0.1").unwrap(),
        IpAddress::V4([10, 0, 0, 1])
    );
    assert_eq!(
        IpAddress::parse("::1").unwrap(),
        IpAddress::V6([0, 0, 0, 0, 0, 0, 0, 0, 0, 0, 0, 0, 0, 0, 0, 1])
    );
    assert_eq!(
        IpAddress::parse("fe80::8:1").unwrap(),
        IpAddress::V6([0xfe, 0x80, 0, 0, 0, 0, 0, 0, 0, 0, 0, 0, 0, 8, 0, 1])
    );
    assert_eq!(
        IpAddress::parse("1:2:3:4:5:6:7:8").unwrap(),
        IpAddress::V6([0, 1, 0, 2, 0, 3, 0, 4, 0, 5, 0, 6, 0, 7, 0, 8])
    );
    assert!(matches!(IpAddress::parse("256.1.1.1"), Err(ConfigError::FailedToParseAsIp(_))));
    assert!(matches!(IpAddress::parse("1.2.3"), Err(ConfigError::FailedToParseAsIp(_))));
    assert!(matches!(IpAddress::parse("1:2:3"), Err(ConfigError::FailedToParseAsIp(_))));
    assert!(matches!(IpAddress::parse(":::1"), Err(ConfigError::FailedToParseAsIp(_))));
    assert!(matches!(IpAddress::parse("hostname"), Err(ConfigError::FailedToParseAsIp(_))));
}

#[test]
fn rendered_ip_texts() {
    let v4 = IpAddress::parse("93.184.216.34").unwrap();
    assert_eq!(interceptor::addrs::render_ip(&v4), "93.184.216.34");
    let v6 = IpAddress::parse("fe80::1").unwrap();
    assert_eq!(interceptor::addrs::render_ip(&v6), "FE80:0000:0000:0000:0000:0000:0000:0001");
}
