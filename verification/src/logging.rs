//! Logging options as the editor names them.
use vstd::prelude::*;
use vstd::string::*;

use crate::text::bytes_equal;

verus! {

/// How records are written to the log file.
#[derive(Copy, Clone, Debug, PartialEq, Eq, Structural)]
pub enum LogOutputType {
    Json,
    Compact,
}

/// Where logs go.
#[derive(Copy, Clone, Debug, PartialEq, Eq, Structural)]
pub enum LogMode {
    Off,
    Stdout,
    StdoutFile,
}

/// The most detailed level that is logged.
#[derive(Copy, Clone, Debug, PartialEq, Eq, Structural)]
pub enum LogLevel {
    Info,
    Debug,
}

/// The output type an option names: `json` gives JSON records, any other
/// name (`compact` among them) compact ones.
pub open spec fn output_type_named(name: Seq<u8>) -> LogOutputType {
    if name == "json".spec_bytes() {
        LogOutputType::Json
    } else {
        LogOutputType::Compact
    }
}

/// The level an option names: `debug` gives `Debug`, any other name (`info`
/// among them) `Info`.
pub open spec fn level_named(name: Seq<u8>) -> LogLevel {
    if name == "debug".spec_bytes() {
        LogLevel::Debug
    } else {
        LogLevel::Info
    }
}

/// The output type an option names (see `output_type_named`).
pub fn log_output_type_of(name: &[u8]) -> (r: LogOutputType)
    ensures
        r == output_type_named(name@),
{
    if bytes_equal(name, "json".as_bytes()) {
        LogOutputType::Json
    } else {
        LogOutputType::Compact
    }
}

/// The level an option names (see `level_named`).
pub fn log_level_of(name: &[u8]) -> (r: LogLevel)
    ensures
        r == level_named(name@),
{
    if bytes_equal(name, "debug".as_bytes()) {
        LogLevel::Debug
    } else {
        LogLevel::Info
    }
}

} // verus!
