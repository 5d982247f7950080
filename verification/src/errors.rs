//! Error kinds surfaced while compiling the declarative configuration.

use vstd::prelude::*;

verus! {

/// A fatal configuration error; each variant names the rule that was broken,
/// most with the offending input attached.
#[derive(Debug, Clone)]
pub enum ConfigError {
    /// The configuration file does not exist.
    NoConfigFound,
    /// The configuration file exists but could not be read.
    FailedToRead(String),
    /// The configuration text is not well-formed, or a value has the wrong
    /// shape; carries a description of the offending value.
    FailedToParse(String),
    /// The filter array is missing or empty.
    NoFiltersFound,
    /// A filter specifies more than one of the mutually exclusive predicate
    /// keys for one side.
    MultipleFiltersFound,
    /// A value that must be a list is not one.
    ExpectedAList,
    /// A regex pattern failed to compile.
    InvalidRegex(String),
    /// A MAC address literal is not six colon-separated two-digit hex octets.
    InvalidMac(String),
    /// A mode is none of `reset`, `monitor`, `ignore`.
    UnknownMode(String),
    /// An IP literal is neither a dotted-quad IPv4 nor a valid IPv6 address.
    FailedToParseAsIp(String),
    /// A log level is none of the recognised names.
    InvalidLogLevel(String),
}

} // verus!
