//! Compilation of the declarative configuration: a value tree mirroring the
//! parsed configuration file is validated and translated into the compiled,
//! weight-ordered rule list, the capture interface choice and the log
//! settings.

use crate::addrs::{bytes_eq, ip_parse_spec, mac_octets_spec, mac_str_valid, IpAddress, MacAddr};
use crate::errors::ConfigError;
use crate::filters::{
    insert_filter_sorted, sort_filters_spec, sorted_by_weight, Filter, HostFilter,
    PacketAction,
};
use crate::regexes::{regex_ok, CompiledRegex};
use vstd::prelude::*;
use vstd::string::{StringExecFns, StringSliceAdditionalSpecFns};

verus! {

/// One value of the configuration tree: the shapes a configuration file can
/// hold, with tables as key-value lists.  Float values carry no payload:
/// no rule reads one.
pub enum ConfigValue {
    Text(String),
    Integer(i64),
    Boolean(bool),
    Float,
    Datetime(String),
    Array(Vec<ConfigValue>),
    Table(Vec<(String, ConfigValue)>),
}

/// Which capture device to open: the platform's default or a named one.
#[derive(Debug, Clone)]
pub enum Interface {
    Lookup,
    Named(String),
}

/// A log severity threshold.
#[derive(Debug, Clone, Copy, PartialEq, Eq, Structural)]
pub enum LogLevel {
    Trace,
    Debug,
    Info,
    Warning,
    Error,
}

/// The log settings: a threshold (`None` means logging is off) and an
/// optional file path (`None` means the terminal).
#[derive(Debug, Clone)]
pub struct LogConfig {
    pub log_level: Option<LogLevel>,
    pub log_file: Option<String>,
}

impl Default for LogConfig {
    fn default() -> (r: Self)
        ensures
            r.log_level == Some(LogLevel::Info),
            r.log_file is None,
    {
        LogConfig { log_level: Some(LogLevel::Info), log_file: None }
    }
}

/// The compiled configuration: the ordered rule list, the interface choice
/// and the log settings.
pub struct Config {
    pub filter: Vec<Filter>,
    pub interface: Interface,
    pub log: LogConfig,
}

/// Whether two strings hold the same characters.
pub(crate) fn str_eq(a: &str, b: &str) -> (r: bool)
    ensures
        r == (a@ == b@),
{
    let r = bytes_eq(a.as_bytes(), b.as_bytes());
    proof {
        if a.spec_bytes() == b.spec_bytes() {
            vstd::utf8::encode_utf8_decode_utf8(a@);
            vstd::utf8::encode_utf8_decode_utf8(b@);
        }
    }
    r
}

/// The value under `key` in a key-value list, first match.
pub open spec fn table_get(t: Seq<(String, ConfigValue)>, key: Seq<char>) -> Option<ConfigValue>
    decreases t.len(),
{
    if t.len() == 0 {
        None
    } else if t[0].0@ == key {
        Some(t[0].1)
    } else {
        table_get(t.skip(1), key)
    }
}

/// The value under `key` if `v` is a table; anything else has no keys.
pub open spec fn value_get(v: ConfigValue, key: Seq<char>) -> Option<ConfigValue> {
    match v {
        ConfigValue::Table(t) => table_get(t@, key),
        _ => None,
    }
}

/// A first matching entry fixes `table_get`.
proof fn lemma_table_get_found(t: Seq<(String, ConfigValue)>, key: Seq<char>, i: int)
    requires
        0 <= i < t.len(),
        t[i].0@ == key,
        forall|j: int| 0 <= j < i ==> (#[trigger] t[j]).0@ != key,
    ensures
        table_get(t, key) == Some(t[i].1),
    decreases i,
{
    if i > 0 {
        assert(t.skip(1)[i - 1] == t[i]);
        assert(forall|j: int| 0 <= j < i - 1 ==> (#[trigger] t.skip(1)[j]) == t[j + 1]);
        lemma_table_get_found(t.skip(1), key, i - 1);
    }
}

/// A key under no entry is absent.
proof fn lemma_table_get_absent(t: Seq<(String, ConfigValue)>, key: Seq<char>)
    requires
        forall|j: int| 0 <= j < t.len() ==> (#[trigger] t[j]).0@ != key,
    ensures
        table_get(t, key) is None,
    decreases t.len(),
{
    if t.len() > 0 {
        assert(forall|j: int| 0 <= j < t.len() - 1 ==> (#[trigger] t.skip(1)[j]) == t[j + 1]);
        lemma_table_get_absent(t.skip(1), key);
    }
}

/// Looks a key up in a key-value list.
fn get_key<'a>(t: &'a Vec<(String, ConfigValue)>, key: &str) -> (r: Option<&'a ConfigValue>)
    ensures
        match r {
            Some(v) => table_get(t@, key@) == Some(*v),
            None => table_get(t@, key@) is None,
        },
{
    let n = t.len();
    let mut i: usize = 0;
    while i < n
        invariant
            n == t@.len(),
            i <= n,
            forall|j: int| 0 <= j < i ==> (#[trigger] t@[j]).0@ != key@,
        decreases n - i,
    {
        if str_eq(t[i].0.as_str(), key) {
            proof {
                lemma_table_get_found(t@, key@, i as int);
            }
            return Some(&t[i].1);
        }
        i = i + 1;
    }
    proof {
        lemma_table_get_absent(t@, key@);
    }
    None
}

/// Looks a key up in a configuration value.
fn value_key<'a>(v: &'a ConfigValue, key: &str) -> (r: Option<&'a ConfigValue>)
    ensures
        match r {
            Some(inner) => value_get(*v, key@) == Some(*inner),
            None => value_get(*v, key@) is None,
        },
{
    match v {
        ConfigValue::Table(t) => get_key(t, key),
        _ => None,
    }
}

/// Which interface the device section names; see `get_interface`.
pub fn get_interface(table: &Vec<(String, ConfigValue)>) -> (r: Result<Interface, ConfigError>)
    ensures
        match table_get(table@, "device"@) {
            None => r == Ok::<Interface, ConfigError>(Interface::Lookup),
            Some(dev) => match value_get(dev, "interface"@) {
                None => r == Ok::<Interface, ConfigError>(Interface::Lookup),
                Some(v) => match v {
                    ConfigValue::Text(s) => (r matches Ok(i) && i matches Interface::Named(nm)
                        && nm@ == s@),
                    _ => (r matches Err(e) && e is FailedToParse),
                },
            },
        },
{
    match get_key(table, "device") {
        None => Ok(Interface::Lookup),
        Some(dev) => match value_key(dev, "interface") {
            None => Ok(Interface::Lookup),
            Some(v) => match v {
                ConfigValue::Text(s) => Ok(Interface::Named(s.clone())),
                _ => Err(
                    ConfigError::FailedToParse(String::from_str("interface must be a string")),
                ),
            },
        },
    }
}

/// The threshold a log-level name denotes: one of the five levels, `off`
/// for no logging, or nothing for an unrecognised name.
pub open spec fn level_of(s: Seq<char>) -> Option<Option<LogLevel>> {
    if s == "trace"@ {
        Some(Some(LogLevel::Trace))
    } else if s == "debug"@ {
        Some(Some(LogLevel::Debug))
    } else if s == "info"@ {
        Some(Some(LogLevel::Info))
    } else if s == "warning"@ {
        Some(Some(LogLevel::Warning))
    } else if s == "error"@ {
        Some(Some(LogLevel::Error))
    } else if s == "off"@ {
        Some(None)
    } else {
        None
    }
}

/// Parses a log-level name; see [`level_of`].
fn parse_level(s: &str) -> (r: Result<Option<LogLevel>, ConfigError>)
    ensures
        level_of(s@) matches Some(l) ==> r == Ok::<Option<LogLevel>, ConfigError>(l),
        level_of(s@) is None ==> (r matches Err(e) && e is InvalidLogLevel),
{
    if str_eq(s, "trace") {
        Ok(Some(LogLevel::Trace))
    } else if str_eq(s, "debug") {
        Ok(Some(LogLevel::Debug))
    } else if str_eq(s, "info") {
        Ok(Some(LogLevel::Info))
    } else if str_eq(s, "warning") {
        Ok(Some(LogLevel::Warning))
    } else if str_eq(s, "error") {
        Ok(Some(LogLevel::Error))
    } else if str_eq(s, "off") {
        Ok(None)
    } else {
        Err(ConfigError::InvalidLogLevel(String::from_str(s)))
    }
}

/// The log-level text of a log section: the `log-level` entry, `info` when
/// absent, nothing when it is not a string.
pub open spec fn log_level_text(lv: ConfigValue) -> Option<Seq<char>> {
    match value_get(lv, "log-level"@) {
        None => Some("info"@),
        Some(v) => match v {
            ConfigValue::Text(s) => Some(s@),
            _ => None,
        },
    }
}

/// The log-file path of a log section: absent, a path, or nothing when it
/// is not a string.
pub open spec fn log_file_of(lv: ConfigValue) -> Option<Option<Seq<char>>> {
    match value_get(lv, "log-file"@) {
        None => Some(None),
        Some(v) => match v {
            ConfigValue::Text(s) => Some(Some(s@)),
            _ => None,
        },
    }
}

/// Reads the log section; absent gives the default of level `info` on the
/// terminal.  A non-string level or file is rejected, an unrecognised level
/// name is `InvalidLogLevel`, and `off` turns logging off.
pub fn get_log(table: &Vec<(String, ConfigValue)>) -> (r: Result<LogConfig, ConfigError>)
    ensures
        match table_get(table@, "log"@) {
            None => (r matches Ok(c) && c.log_level == Some(LogLevel::Info) && c.log_file
                is None),
            Some(lv) => {
                &&& (log_level_text(lv) is None ==> (r matches Err(e) && e is FailedToParse))
                &&& (log_level_text(lv) matches Some(t) ==> match level_of(t) {
                    None => (r matches Err(e) && e is InvalidLogLevel),
                    Some(l) => match log_file_of(lv) {
                        None => (r matches Err(e) && e is FailedToParse),
                        Some(f) => (r matches Ok(c) && c.log_level == l && (match f {
                            Some(p) => (c.log_file matches Some(q) && q@ == p),
                            None => c.log_file is None,
                        })),
                    },
                })
            },
        },
{
    match get_key(table, "log") {
        None => Ok(LogConfig::default()),
        Some(lv) => {
            let level_txt: &str = match value_key(lv, "log-level") {
                None => "info",
                Some(v) => match v {
                    ConfigValue::Text(s) => s.as_str(),
                    _ => {
                        return Err(
                            ConfigError::FailedToParse(
                                String::from_str("log-level must be a string"),
                            ),
                        );
                    },
                },
            };
            let log_level = match parse_level(level_txt) {
                Ok(l) => l,
                Err(e) => {
                    return Err(e);
                },
            };
            let log_file = match value_key(lv, "log-file") {
                None => None,
                Some(v) => match v {
                    ConfigValue::Text(s) => Some(s.clone()),
                    _ => {
                        return Err(
                            ConfigError::FailedToParse(
                                String::from_str("log-file must be a string"),
                            ),
                        );
                    },
                },
            };
            Ok(LogConfig { log_level, log_file })
        },
    }
}

/// The action a mode name denotes.
pub open spec fn mode_of(s: Seq<char>) -> Option<PacketAction> {
    if s == "reset"@ {
        Some(PacketAction::Reset)
    } else if s == "monitor"@ {
        Some(PacketAction::Monitor)
    } else if s == "ignore"@ {
        Some(PacketAction::Ignore)
    } else {
        None
    }
}

/// Parses a mode name; see [`mode_of`].
fn parse_mode(s: &str) -> (r: Result<PacketAction, ConfigError>)
    ensures
        mode_of(s@) matches Some(m) ==> r == Ok::<PacketAction, ConfigError>(m),
        mode_of(s@) is None ==> (r matches Err(e) && e is UnknownMode),
{
    if str_eq(s, "reset") {
        Ok(PacketAction::Reset)
    } else if str_eq(s, "monitor") {
        Ok(PacketAction::Monitor)
    } else if str_eq(s, "ignore") {
        Ok(PacketAction::Ignore)
    } else {
        Err(ConfigError::UnknownMode(String::from_str(s)))
    }
}

/// The IP list an array denotes, or nothing at the first bad element.
pub open spec fn ip_list_val(a: Seq<ConfigValue>) -> Option<Seq<IpAddress>>
    decreases a.len(),
{
    if a.len() == 0 {
        Some(Seq::empty())
    } else {
        match a[0] {
            ConfigValue::Text(s) => match ip_parse_spec(s@) {
                Some(ip) => match ip_list_val(a.skip(1)) {
                    Some(l) => Some(seq![ip] + l),
                    None => None,
                },
                None => None,
            },
            _ => None,
        }
    }
}

/// Whether the first bad element of an IP list is not a string (as opposed
/// to a string that is no IP).
pub open spec fn ip_list_type_err(a: Seq<ConfigValue>) -> bool
    decreases a.len(),
{
    if a.len() == 0 {
        false
    } else {
        match a[0] {
            ConfigValue::Text(s) => ip_parse_spec(s@) is Some && ip_list_type_err(a.skip(1)),
            _ => true,
        }
    }
}

/// Prepends parsed elements to a pending suffix result.
pub open spec fn opt_prepend<T>(pre: Seq<T>, o: Option<Seq<T>>) -> Option<Seq<T>> {
    match o {
        Some(l) => Some(pre + l),
        None => None,
    }
}

/// Parses an array of IP literals; a non-list is `ExpectedAList`, a
/// non-string element `FailedToParse`, an unparsable literal
/// `FailedToParseAsIp`.
pub fn ip_vec_from_value(item: &ConfigValue) -> (r: Result<Vec<IpAddress>, ConfigError>)
    ensures
        match item {
            ConfigValue::Array(a) => {
                &&& (ip_list_val(a@) matches Some(l) ==> (r matches Ok(v) && v@ == l))
                &&& (ip_list_val(a@) is None && ip_list_type_err(a@) ==> (r matches Err(e) && e
                    is FailedToParse))
                &&& (ip_list_val(a@) is None && !ip_list_type_err(a@) ==> (r matches Err(e) && e
                    is FailedToParseAsIp))
            },
            _ => (r matches Err(e) && e is ExpectedAList),
        },
{
    let a = match item {
        ConfigValue::Array(a) => a,
        _ => {
            return Err(ConfigError::ExpectedAList);
        },
    };
    let n = a.len();
    let mut out: Vec<IpAddress> = Vec::new();
    let mut i: usize = 0;
    proof {
        assert(a@.skip(0) =~= a@);
        assert(opt_prepend(out@, ip_list_val(a@)) == ip_list_val(a@));
    }
    while i < n
        invariant
            *item is Array,
            item->Array_0 == *a,
            i <= n,
            n == a@.len(),
            ip_list_val(a@) == opt_prepend(out@, ip_list_val(a@.skip(i as int))),
            ip_list_type_err(a@) == ip_list_type_err(a@.skip(i as int)),
            out@.len() == i,
        decreases n - i,
    {
        proof {
            assert(a@.skip(i as int)[0] == a@[i as int]);
            assert(a@.skip(i as int).skip(1) =~= a@.skip(i as int + 1));
        }
        match &a[i] {
            ConfigValue::Text(s) => {
                match IpAddress::parse(s.as_str()) {
                    Ok(ip) => {
                        out.push(ip);
                        proof {
                            match ip_list_val(a@.skip(i as int + 1)) {
                                Some(l) => {
                                    assert((out@ + l) =~= (out@.drop_last() + (seq![ip] + l)));
                                },
                                None => {},
                            }
                        }
                    },
                    Err(_) => {
                        return Err(ConfigError::FailedToParseAsIp(s.clone()));
                    },
                }
            },
            _ => {
                return Err(
                    ConfigError::FailedToParse(String::from_str("expected a list of strings")),
                );
            },
        }
        i = i + 1;
    }
    proof {
        assert(a@.skip(n as int) =~= Seq::<ConfigValue>::empty());
        assert(ip_list_val(a@) == Some(out@ + Seq::<IpAddress>::empty()));
        assert((out@ + Seq::<IpAddress>::empty()) =~= out@);
    }
    Ok(out)
}

/// The MAC octet lists an array denotes, or nothing at the first bad
/// element.
pub open spec fn mac_list_val(a: Seq<ConfigValue>) -> Option<Seq<Seq<u8>>>
    decreases a.len(),
{
    if a.len() == 0 {
        Some(Seq::empty())
    } else {
        match a[0] {
            ConfigValue::Text(s) => if mac_str_valid(s@) {
                match mac_list_val(a.skip(1)) {
                    Some(l) => Some(seq![mac_octets_spec(s@)] + l),
                    None => None,
                }
            } else {
                None
            },
            _ => None,
        }
    }
}

/// Whether the first bad element of a MAC list is not a string.
pub open spec fn mac_list_type_err(a: Seq<ConfigValue>) -> bool
    decreases a.len(),
{
    if a.len() == 0 {
        false
    } else {
        match a[0] {
            ConfigValue::Text(s) => mac_str_valid(s@) && mac_list_type_err(a.skip(1)),
            _ => true,
        }
    }
}

/// The parsed MACs carry exactly the denoted octet lists.
pub open spec fn mac_views_match(l: Seq<MacAddr>, o: Option<Seq<Seq<u8>>>) -> bool {
    match o {
        Some(v) => l.len() == v.len() && forall|k: int|
            0 <= k < l.len() ==> (#[trigger] l[k])@ == v[k],
        None => false,
    }
}

/// Parses an array of MAC literals; a non-list is `ExpectedAList`, a
/// non-string element `FailedToParse`, a bad literal `InvalidMac`.
pub fn mac_vec_from_value(item: &ConfigValue) -> (r: Result<Vec<MacAddr>, ConfigError>)
    ensures
        match item {
            ConfigValue::Array(a) => {
                &&& (mac_list_val(a@) is Some ==> (r matches Ok(v) && mac_views_match(
                    v@,
                    mac_list_val(a@),
                )))
                &&& (mac_list_val(a@) is None && mac_list_type_err(a@) ==> (r matches Err(e) && e
                    is FailedToParse))
                &&& (mac_list_val(a@) is None && !mac_list_type_err(a@) ==> (r matches Err(e)
                    && e is InvalidMac))
            },
            _ => (r matches Err(e) && e is ExpectedAList),
        },
{
    let a = match item {
        ConfigValue::Array(a) => a,
        _ => {
            return Err(ConfigError::ExpectedAList);
        },
    };
    let n = a.len();
    let mut out: Vec<MacAddr> = Vec::new();
    let mut i: usize = 0;
    let ghost mut views: Seq<Seq<u8>> = Seq::empty();
    proof {
        assert(a@.skip(0) =~= a@);
        assert(opt_prepend(views, mac_list_val(a@)) == mac_list_val(a@));
    }
    while i < n
        invariant
            *item is Array,
            item->Array_0 == *a,
            i <= n,
            n == a@.len(),
            mac_list_val(a@) == opt_prepend(views, mac_list_val(a@.skip(i as int))),
            mac_list_type_err(a@) == mac_list_type_err(a@.skip(i as int)),
            out@.len() == i,
            views.len() == i,
            forall|k: int| 0 <= k < i ==> (#[trigger] out@[k])@ == views[k],
        decreases n - i,
    {
        proof {
            assert(a@.skip(i as int)[0] == a@[i as int]);
            assert(a@.skip(i as int).skip(1) =~= a@.skip(i as int + 1));
        }
        match &a[i] {
            ConfigValue::Text(s) => {
                match MacAddr::try_from(s.as_str()) {
                    Ok(m) => {
                        out.push(m);
                        proof {
                            views = views.push(mac_octets_spec(s@));
                            match mac_list_val(a@.skip(i as int + 1)) {
                                Some(l) => {
                                    assert((views + l) =~= (views.drop_last() + (seq![
                                        mac_octets_spec(s@),
                                    ] + l)));
                                },
                                None => {},
                            }
                        }
                    },
                    Err(e) => {
                        return Err(e);
                    },
                }
            },
            _ => {
                return Err(
                    ConfigError::FailedToParse(String::from_str("expected a list of strings")),
                );
            },
        }
        i = i + 1;
    }
    proof {
        assert(a@.skip(n as int) =~= Seq::<ConfigValue>::empty());
        assert(mac_list_val(a@) == Some(views + Seq::<Seq<u8>>::empty()));
        assert((views + Seq::<Seq<u8>>::empty()) =~= views);
    }
    Ok(out)
}

/// A present IP-list key holds an array of parsable IP literals.
pub open spec fn key_ip_list_ok(e: ConfigValue, key: Seq<char>) -> bool {
    match value_get(e, key) {
        None => true,
        Some(v) => match v {
            ConfigValue::Array(a) => ip_list_val(a@) is Some,
            _ => false,
        },
    }
}

/// A present MAC-list key holds an array of valid MAC literals.
pub open spec fn key_mac_list_ok(e: ConfigValue, key: Seq<char>) -> bool {
    match value_get(e, key) {
        None => true,
        Some(v) => match v {
            ConfigValue::Array(a) => mac_list_val(a@) is Some,
            _ => false,
        },
    }
}

/// A present key holds a string.
pub open spec fn key_text_ok(e: ConfigValue, key: Seq<char>) -> bool {
    match value_get(e, key) {
        None => true,
        Some(v) => v is Text,
    }
}

/// A present regex key holds a pattern the regex engine accepts.
pub open spec fn key_regex_compiles(e: ConfigValue, key: Seq<char>) -> bool {
    match value_get(e, key) {
        Some(v) => match v {
            ConfigValue::Text(s) => regex_ok(s@),
            _ => true,
        },
        None => true,
    }
}

/// A present mode key holds one of the known mode names.
pub open spec fn entry_mode_ok(e: ConfigValue) -> bool {
    match value_get(e, "mode"@) {
        None => true,
        Some(v) => match v {
            ConfigValue::Text(s) => mode_of(s@) is Some,
            _ => false,
        },
    }
}

/// Every present field of the entry is well typed and parses.
pub open spec fn entry_typed(e: ConfigValue) -> bool {
    &&& key_ip_list_ok(e, "src"@)
    &&& key_ip_list_ok(e, "dst"@)
    &&& key_ip_list_ok(e, "src_exclude"@)
    &&& key_ip_list_ok(e, "dst_exclude"@)
    &&& key_mac_list_ok(e, "src_mac"@)
    &&& key_mac_list_ok(e, "dst_mac"@)
    &&& key_mac_list_ok(e, "src_mac_exclude"@)
    &&& key_mac_list_ok(e, "dst_mac_exclude"@)
    &&& key_text_ok(e, "src_regex"@)
    &&& key_text_ok(e, "dst_regex"@)
    &&& entry_mode_ok(e)
}

/// At most one of the include / regex / exclude keys, and at most one of
/// the MAC keys, for one side.
pub open spec fn side_exclusive(
    e: ConfigValue,
    kips: Seq<char>,
    krgx: Seq<char>,
    kexc: Seq<char>,
    kmac: Seq<char>,
    kmace: Seq<char>,
) -> bool {
    &&& !(value_get(e, kips) is Some && value_get(e, krgx) is Some)
    &&& !(value_get(e, kips) is Some && value_get(e, kexc) is Some)
    &&& !(value_get(e, krgx) is Some && value_get(e, kexc) is Some)
    &&& !(value_get(e, kmac) is Some && value_get(e, kmace) is Some)
}

/// Mutual exclusion on both sides of the entry.
pub open spec fn entry_exclusive(e: ConfigValue) -> bool {
    side_exclusive(e, "src"@, "src_regex"@, "src_exclude"@, "src_mac"@, "src_mac_exclude"@)
        && side_exclusive(e, "dst"@, "dst_regex"@, "dst_exclude"@, "dst_mac"@, "dst_mac_exclude"@)
}

/// A compilable entry: typed, mutually exclusive, with compilable patterns.
pub open spec fn entry_valid(e: ConfigValue) -> bool {
    entry_typed(e) && entry_exclusive(e) && key_regex_compiles(e, "src_regex"@)
        && key_regex_compiles(e, "dst_regex"@)
}

/// The compiled predicate a side of a valid entry denotes, by the same
/// precedence the assignments had: a MAC key wins over an IP or regex key,
/// exclusion over inclusion, and no key at all is the wildcard.
pub open spec fn side_pred_matches(
    e: ConfigValue,
    p: HostFilter,
    kips: Seq<char>,
    krgx: Seq<char>,
    kexc: Seq<char>,
    kmac: Seq<char>,
    kmace: Seq<char>,
) -> bool {
    if value_get(e, kmace) is Some {
        match (value_get(e, kmace), p) {
            (Some(ConfigValue::Array(a)), HostFilter::ExcludeMACs(l)) => mac_views_match(
                l@,
                mac_list_val(a@),
            ),
            _ => false,
        }
    } else if value_get(e, kmac) is Some {
        match (value_get(e, kmac), p) {
            (Some(ConfigValue::Array(a)), HostFilter::IncludeMACs(l)) => mac_views_match(
                l@,
                mac_list_val(a@),
            ),
            _ => false,
        }
    } else if value_get(e, kexc) is Some {
        match (value_get(e, kexc), p) {
            (Some(ConfigValue::Array(a)), HostFilter::ExcludeIPs(l)) => ip_list_val(a@) == Some(
                l@,
            ),
            _ => false,
        }
    } else if value_get(e, krgx) is Some {
        match (value_get(e, krgx), p) {
            (Some(ConfigValue::Text(s)), HostFilter::Regex(rx)) => rx.pattern_view() == s@,
            _ => false,
        }
    } else if value_get(e, kips) is Some {
        match (value_get(e, kips), p) {
            (Some(ConfigValue::Array(a)), HostFilter::IncludeIPs(l)) => ip_list_val(a@) == Some(
                l@,
            ),
            _ => false,
        }
    } else {
        p is WildCard
    }
}

/// The rule a valid entry compiles to: both side predicates and the mode,
/// `reset` when none is given.
pub open spec fn filter_matches_entry(f: Filter, e: ConfigValue) -> bool {
    &&& side_pred_matches(
        e,
        f.src,
        "src"@,
        "src_regex"@,
        "src_exclude"@,
        "src_mac"@,
        "src_mac_exclude"@,
    )
    &&& side_pred_matches(
        e,
        f.dst,
        "dst"@,
        "dst_regex"@,
        "dst_exclude"@,
        "dst_mac"@,
        "dst_mac_exclude"@,
    )
    &&& match value_get(e, "mode"@) {
        None => f.mode == PacketAction::Reset,
        Some(v) => match v {
            ConfigValue::Text(s) => mode_of(s@) == Some(f.mode),
            _ => false,
        },
    }
}

/// Extracts one optional IP-list field.
fn take_ip_list(e: &ConfigValue, key: &str) -> (r: Result<Option<Vec<IpAddress>>, ConfigError>)
    ensures
        match value_get(*e, key@) {
            None => r == Ok::<Option<Vec<IpAddress>>, ConfigError>(None),
            Some(v) => match v {
                ConfigValue::Array(a) => match ip_list_val(a@) {
                    Some(l) => (r matches Ok(o) && o matches Some(vv) && vv@ == l),
                    None => (r matches Err(er) && (if ip_list_type_err(a@) {
                        er is FailedToParse
                    } else {
                        er is FailedToParseAsIp
                    })),
                },
                _ => (r matches Err(er) && er is ExpectedAList),
            },
        },
        r is Ok ==> key_ip_list_ok(*e, key@),
        r is Err ==> !key_ip_list_ok(*e, key@),
{
    match value_key(e, key) {
        None => Ok(None),
        Some(v) => match ip_vec_from_value(v) {
            Ok(l) => Ok(Some(l)),
            Err(er) => Err(er),
        },
    }
}

/// Extracts one optional MAC-list field.
fn take_mac_list(e: &ConfigValue, key: &str) -> (r: Result<Option<Vec<MacAddr>>, ConfigError>)
    ensures
        match value_get(*e, key@) {
            None => r == Ok::<Option<Vec<MacAddr>>, ConfigError>(None),
            Some(v) => match v {
                ConfigValue::Array(a) => match mac_list_val(a@) {
                    Some(l) => (r matches Ok(o) && o matches Some(vv) && mac_views_match(
                        vv@,
                        Some(l),
                    )),
                    None => (r matches Err(er) && (if mac_list_type_err(a@) {
                        er is FailedToParse
                    } else {
                        er is InvalidMac
                    })),
                },
                _ => (r matches Err(er) && er is ExpectedAList),
            },
        },
        r is Ok ==> key_mac_list_ok(*e, key@),
        r is Err ==> !key_mac_list_ok(*e, key@),
{
    match value_key(e, key) {
        None => Ok(None),
        Some(v) => match mac_vec_from_value(v) {
            Ok(l) => Ok(Some(l)),
            Err(er) => Err(er),
        },
    }
}

/// Extracts one optional string field.
fn take_text(e: &ConfigValue, key: &str) -> (r: Result<Option<String>, ConfigError>)
    ensures
        match value_get(*e, key@) {
            None => r == Ok::<Option<String>, ConfigError>(None),
            Some(v) => match v {
                ConfigValue::Text(s) => (r matches Ok(o) && o matches Some(t) && t@ == s@),
                _ => (r matches Err(er) && er is FailedToParse),
            },
        },
        r is Ok ==> key_text_ok(*e, key@),
        r is Err ==> !key_text_ok(*e, key@),
{
    match value_key(e, key) {
        None => Ok(None),
        Some(v) => match v {
            ConfigValue::Text(s) => Ok(Some(s.clone())),
            _ => Err(ConfigError::FailedToParse(String::from_str("expected a string value"))),
        },
    }
}

/// The error a broken IP-list key yields: a non-list value is
/// `ExpectedAList`, a non-string element `FailedToParse`, a string that is
/// no IP literal `FailedToParseAsIp`.
pub open spec fn ip_key_err(e: ConfigValue, key: Seq<char>, err: ConfigError) -> bool {
    match value_get(e, key) {
        Some(v) => match v {
            ConfigValue::Array(a) => if ip_list_type_err(a@) {
                err is FailedToParse
            } else {
                err is FailedToParseAsIp
            },
            _ => err is ExpectedAList,
        },
        None => false,
    }
}

/// The error a broken MAC-list key yields: a non-list value is
/// `ExpectedAList`, a non-string element `FailedToParse`, a string that is
/// no MAC literal `InvalidMac`.
pub open spec fn mac_key_err(e: ConfigValue, key: Seq<char>, err: ConfigError) -> bool {
    match value_get(e, key) {
        Some(v) => match v {
            ConfigValue::Array(a) => if mac_list_type_err(a@) {
                err is FailedToParse
            } else {
                err is InvalidMac
            },
            _ => err is ExpectedAList,
        },
        None => false,
    }
}

/// The error a broken mode key yields: a non-string value is
/// `FailedToParse`, an unrecognised mode name `UnknownMode`.
pub open spec fn mode_key_err(e: ConfigValue, err: ConfigError) -> bool {
    match value_get(e, "mode"@) {
        Some(v) => match v {
            ConfigValue::Text(s) => mode_of(s@) is None && err is UnknownMode,
            _ => err is FailedToParse,
        },
        None => false,
    }
}

/// Which error an ill-typed entry yields: the first broken field decides,
/// in the order the fields are read.
pub open spec fn entry_field_error(e: ConfigValue, err: ConfigError) -> bool {
    if !key_ip_list_ok(e, "src"@) {
        ip_key_err(e, "src"@, err)
    } else if !key_ip_list_ok(e, "dst"@) {
        ip_key_err(e, "dst"@, err)
    } else if !key_ip_list_ok(e, "src_exclude"@) {
        ip_key_err(e, "src_exclude"@, err)
    } else if !key_ip_list_ok(e, "dst_exclude"@) {
        ip_key_err(e, "dst_exclude"@, err)
    } else if !key_mac_list_ok(e, "src_mac"@) {
        mac_key_err(e, "src_mac"@, err)
    } else if !key_mac_list_ok(e, "dst_mac"@) {
        mac_key_err(e, "dst_mac"@, err)
    } else if !key_mac_list_ok(e, "src_mac_exclude"@) {
        mac_key_err(e, "src_mac_exclude"@, err)
    } else if !key_mac_list_ok(e, "dst_mac_exclude"@) {
        mac_key_err(e, "dst_mac_exclude"@, err)
    } else if !key_text_ok(e, "src_regex"@) {
        err is FailedToParse
    } else if !key_text_ok(e, "dst_regex"@) {
        err is FailedToParse
    } else if !entry_mode_ok(e) {
        mode_key_err(e, err)
    } else {
        false
    }
}

/// Compiles one filter entry into a rule.  A valid entry compiles to the
/// rule [`filter_matches_entry`] describes; an entry whose fields are well
/// typed but that names more than one mutually exclusive key fails with
/// `MultipleFiltersFound`; one whose pattern the regex engine rejects fails
/// with `InvalidRegex`; an ill-typed entry fails with the error of its
/// first broken field, per [`entry_field_error`].
pub fn compile_filter(e: &ConfigValue) -> (r: Result<Filter, ConfigError>)
    ensures
        entry_valid(*e) ==> (r matches Ok(f) && filter_matches_entry(f, *e)),
        entry_typed(*e) && !entry_exclusive(*e) ==> (r matches Err(err) && err
            is MultipleFiltersFound),
        entry_typed(*e) && entry_exclusive(*e) && !(key_regex_compiles(*e, "src_regex"@)
            && key_regex_compiles(*e, "dst_regex"@)) ==> (r matches Err(err) && err
            is InvalidRegex),
        !entry_typed(*e) ==> (r matches Err(err) && entry_field_error(*e, err)),
        !entry_valid(*e) ==> r is Err,
{
    let src_ips = match take_ip_list(e, "src") {
        Ok(o) => o,
        Err(er) => {
            return Err(er);
        },
    };
    let dst_ips = match take_ip_list(e, "dst") {
        Ok(o) => o,
        Err(er) => {
            return Err(er);
        },
    };
    let src_exc = match take_ip_list(e, "src_exclude") {
        Ok(o) => o,
        Err(er) => {
            return Err(er);
        },
    };
    let dst_exc = match take_ip_list(e, "dst_exclude") {
        Ok(o) => o,
        Err(er) => {
            return Err(er);
        },
    };
    let src_mac = match take_mac_list(e, "src_mac") {
        Ok(o) => o,
        Err(er) => {
            return Err(er);
        },
    };
    let dst_mac = match take_mac_list(e, "dst_mac") {
        Ok(o) => o,
        Err(er) => {
            return Err(er);
        },
    };
    let src_mace = match take_mac_list(e, "src_mac_exclude") {
        Ok(o) => o,
        Err(er) => {
            return Err(er);
        },
    };
    let dst_mace = match take_mac_list(e, "dst_mac_exclude") {
        Ok(o) => o,
        Err(er) => {
            return Err(er);
        },
    };
    let src_rgx = match take_text(e, "src_regex") {
        Ok(o) => o,
        Err(er) => {
            return Err(er);
        },
    };
    let dst_rgx = match take_text(e, "dst_regex") {
        Ok(o) => o,
        Err(er) => {
            return Err(er);
        },
    };
    let mode = match take_text(e, "mode") {
        Ok(None) => PacketAction::Reset,
        Ok(Some(s)) => match parse_mode(s.as_str()) {
            Ok(m) => m,
            Err(er) => {
                return Err(er);
            },
        },
        Err(er) => {
            return Err(er);
        },
    };
    if src_ips.is_some() && src_rgx.is_some() || src_ips.is_some() && src_exc.is_some()
        || src_rgx.is_some() && src_exc.is_some() || src_mac.is_some() && src_mace.is_some() {
        return Err(ConfigError::MultipleFiltersFound);
    }
    if dst_ips.is_some() && dst_rgx.is_some() || dst_ips.is_some() && dst_exc.is_some()
        || dst_rgx.is_some() && dst_exc.is_some() || dst_mac.is_some() && dst_mace.is_some() {
        return Err(ConfigError::MultipleFiltersFound);
    }
    let src_rx = match src_rgx {
        Some(p) => match CompiledRegex::compile(p.as_str()) {
            Some(rx) => Some(rx),
            None => {
                return Err(ConfigError::InvalidRegex(p));
            },
        },
        None => None,
    };
    let dst_rx = match dst_rgx {
        Some(p) => match CompiledRegex::compile(p.as_str()) {
            Some(rx) => Some(rx),
            None => {
                return Err(ConfigError::InvalidRegex(p));
            },
        },
        None => None,
    };
    let src_pred = if let Some(l) = src_mace {
        HostFilter::ExcludeMACs(l)
    } else if let Some(l) = src_mac {
        HostFilter::IncludeMACs(l)
    } else if let Some(l) = src_exc {
        HostFilter::ExcludeIPs(l)
    } else if let Some(rx) = src_rx {
        HostFilter::Regex(rx)
    } else if let Some(l) = src_ips {
        HostFilter::IncludeIPs(l)
    } else {
        HostFilter::WildCard
    };
    let dst_pred = if let Some(l) = dst_mace {
        HostFilter::ExcludeMACs(l)
    } else if let Some(l) = dst_mac {
        HostFilter::IncludeMACs(l)
    } else if let Some(l) = dst_exc {
        HostFilter::ExcludeIPs(l)
    } else if let Some(rx) = dst_rx {
        HostFilter::Regex(rx)
    } else if let Some(l) = dst_ips {
        HostFilter::IncludeIPs(l)
    } else {
        HostFilter::WildCard
    };
    Ok(Filter { src: src_pred, dst: dst_pred, mode })
}

/// The interface value a compiled configuration must carry.
pub open spec fn interface_matches(t: Seq<(String, ConfigValue)>, i: Interface) -> bool {
    match table_get(t, "device"@) {
        None => i is Lookup,
        Some(dev) => match value_get(dev, "interface"@) {
            None => i is Lookup,
            Some(v) => match v {
                ConfigValue::Text(s) => i matches Interface::Named(nm) && nm@ == s@,
                _ => false,
            },
        },
    }
}

/// The device section is absent or names the interface as a string.
pub open spec fn interface_valid(t: Seq<(String, ConfigValue)>) -> bool {
    match table_get(t, "device"@) {
        None => true,
        Some(dev) => match value_get(dev, "interface"@) {
            None => true,
            Some(v) => v is Text,
        },
    }
}

/// The log settings a compiled configuration must carry.
pub open spec fn log_matches(t: Seq<(String, ConfigValue)>, c: LogConfig) -> bool {
    match table_get(t, "log"@) {
        None => c.log_level == Some(LogLevel::Info) && c.log_file is None,
        Some(lv) => match log_level_text(lv) {
            Some(txt) => match level_of(txt) {
                Some(l) => c.log_level == l && (match log_file_of(lv) {
                    Some(f) => match f {
                        Some(p) => c.log_file matches Some(q) && q@ == p,
                        None => c.log_file is None,
                    },
                    None => false,
                }),
                None => false,
            },
            None => false,
        },
    }
}

/// The log section is absent or holds a known level and a string path.
pub open spec fn log_valid(t: Seq<(String, ConfigValue)>) -> bool {
    match table_get(t, "log"@) {
        None => true,
        Some(lv) => log_level_text(lv) matches Some(txt) && level_of(txt) is Some && log_file_of(
            lv,
        ) is Some,
    }
}

/// Every filter entry compiles.
pub open spec fn all_entries_valid(a: Seq<ConfigValue>) -> bool {
    forall|k: int| 0 <= k < a.len() ==> entry_valid(#[trigger] a[k])
}

/// The error a broken entry yields: its first broken field's error, or
/// `MultipleFiltersFound` for a well-typed entry breaking mutual exclusion,
/// or `InvalidRegex` for one whose pattern the regex engine rejects.
pub open spec fn entry_error_matches(e: ConfigValue, err: ConfigError) -> bool {
    if !entry_typed(e) {
        entry_field_error(e, err)
    } else if !entry_exclusive(e) {
        err is MultipleFiltersFound
    } else {
        err is InvalidRegex
    }
}

/// The index of the first entry that does not compile, or the array's
/// length when all do.
pub open spec fn first_invalid_idx(a: Seq<ConfigValue>) -> int
    decreases a.len(),
{
    if a.len() == 0 {
        0
    } else if !entry_valid(a[0]) {
        0
    } else {
        1 + first_invalid_idx(a.skip(1))
    }
}

/// A first invalid entry fixes `first_invalid_idx`.
proof fn lemma_first_invalid_at(a: Seq<ConfigValue>, i: int)
    requires
        0 <= i < a.len(),
        !entry_valid(a[i]),
        forall|j: int| 0 <= j < i ==> entry_valid(#[trigger] a[j]),
    ensures
        first_invalid_idx(a) == i,
    decreases i,
{
    if i > 0 {
        assert(a.skip(1)[i - 1] == a[i]);
        assert(forall|j: int| 0 <= j < i - 1 ==> (#[trigger] a.skip(1)[j]) == a[j + 1]);
        lemma_first_invalid_at(a.skip(1), i - 1);
    }
}

/// The compiled rule list is the stable ascending-weight ordering of rules
/// that compile from the entries, one each, in order.
pub open spec fn filters_compile_to(entries: Seq<ConfigValue>, result: Seq<Filter>) -> bool {
    exists|mids: Seq<Filter>|
        #![trigger sort_filters_spec(mids)]
        mids.len() == entries.len() && (forall|k: int|
            0 <= k < entries.len() ==> filter_matches_entry(#[trigger] mids[k], entries[k]))
            && result == sort_filters_spec(mids)
}

impl Config {
    /// Compiles a parsed configuration tree: the interface choice, the log
    /// settings, and the filter array compiled rule by rule and ordered by
    /// ascending weight.  The root must be a table holding a non-empty
    /// filter array whose entries all compile; the first broken section
    /// decides the error, device before log before filters.
    #[verifier::loop_isolation(false)]
    pub fn build(root: &ConfigValue) -> (r: Result<Config, ConfigError>)
        ensures
            r matches Ok(c) ==> {
                &&& *root is Table
                &&& interface_matches(root->Table_0@, c.interface)
                &&& log_matches(root->Table_0@, c.log)
                &&& sorted_by_weight(c.filter@)
                &&& match table_get(root->Table_0@, "filter"@) {
                    Some(fv) => fv matches ConfigValue::Array(a) && a@.len() > 0
                        && all_entries_valid(a@) && filters_compile_to(a@, c.filter@),
                    None => false,
                }
            },
            !(*root is Table) ==> (r matches Err(e) && e is FailedToParse),
            *root matches ConfigValue::Table(t) ==> {
                &&& (!interface_valid(t@) ==> (r matches Err(e) && e is FailedToParse))
                &&& (interface_valid(t@) && !log_valid(t@) ==> (r matches Err(e) && (e
                    is FailedToParse || e is InvalidLogLevel)))
                &&& (interface_valid(t@) && log_valid(t@) ==> match table_get(t@, "filter"@) {
                    None => (r matches Err(e) && e is NoFiltersFound),
                    Some(fv) => match fv {
                        ConfigValue::Array(a) => {
                            &&& (a@.len() == 0 ==> (r matches Err(e) && e is NoFiltersFound))
                            &&& (a@.len() > 0 && all_entries_valid(a@) ==> r is Ok)
                            &&& (a@.len() > 0 && !all_entries_valid(a@) ==> (r matches Err(e)
                                && entry_error_matches(a@[first_invalid_idx(a@)], e)))
                        },
                        _ => (r matches Err(e) && e is FailedToParse),
                    },
                })
            },
    {
        let table = match root {
            ConfigValue::Table(t) => t,
            _ => {
                return Err(
                    ConfigError::FailedToParse(
                        String::from_str("the configuration root must be a table"),
                    ),
                );
            },
        };
        let interface = match get_interface(table) {
            Ok(i) => i,
            Err(e) => {
                return Err(e);
            },
        };
        let log = match get_log(table) {
            Ok(l) => l,
            Err(e) => {
                return Err(e);
            },
        };
        let fv = match get_key(table, "filter") {
            Some(v) => v,
            None => {
                return Err(ConfigError::NoFiltersFound);
            },
        };
        let arr = match fv {
            ConfigValue::Array(a) => a,
            _ => {
                return Err(
                    ConfigError::FailedToParse(String::from_str("filter must be an array")),
                );
            },
        };
        let n = arr.len();
        if n == 0 {
            return Err(ConfigError::NoFiltersFound);
        }
        let mut sorted: Vec<Filter> = Vec::new();
        let ghost mut mids: Seq<Filter> = Seq::empty();
        let mut i: usize = 0;
        proof {
            assert(sort_filters_spec(mids) =~= Seq::<Filter>::empty());
        }
        while i < n
            invariant
                n == arr@.len(),
                i <= n,
                mids.len() == i,
                forall|k: int|
                    0 <= k < i ==> filter_matches_entry(#[trigger] mids[k], arr@[k]),
                sorted@ == sort_filters_spec(mids),
                sorted_by_weight(sorted@),
                forall|k: int| 0 <= k < i ==> entry_valid(#[trigger] arr@[k]),
            decreases n - i,
        {
            match compile_filter(&arr[i]) {
                Ok(f) => {
                    let ghost pre = mids;
                    proof {
                        mids = mids.push(f);
                        assert(mids.drop_last() =~= pre);
                        assert(entry_valid(arr@[i as int]));
                        assert(filter_matches_entry(f, arr@[i as int]));
                    }
                    insert_filter_sorted(&mut sorted, f);
                },
                Err(er) => {
                    proof {
                        assert(!entry_valid(arr@[i as int]));
                        assert(!all_entries_valid(arr@));
                        lemma_first_invalid_at(arr@, i as int);
                    }
                    return Err(er);
                },
            }
            i = i + 1;
        }
        proof {
            assert(all_entries_valid(arr@));
            assert(filters_compile_to(arr@, sorted@));
        }
        Ok(Config { filter: sorted, interface, log })
    }
}

} // verus!
