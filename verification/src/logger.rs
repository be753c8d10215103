use vstd::prelude::*;

verus! {

/// Severity of a log line, most severe first.
#[derive(Clone, Copy, Debug)]
pub enum LogLevel {
    LogLevelFatal,
    LogLevelError,
    LogLevelWarn,
    LogLevelInfo,
    LogLevelDebug,
    LogLevelTrace,
}

/// The ANSI colour code a level is rendered with.
pub open spec fn spec_level_color(level: LogLevel) -> u8 {
    match level {
        LogLevel::LogLevelFatal => 30,
        LogLevel::LogLevelError => 31,
        LogLevel::LogLevelWarn => 33,
        LogLevel::LogLevelInfo => 32,
        LogLevel::LogLevelDebug => 34,
        LogLevel::LogLevelTrace => 36,
    }
}

/// The tag a level is rendered with.
pub open spec fn spec_level_string(level: LogLevel) -> Seq<char> {
    match level {
        LogLevel::LogLevelFatal => "FATAL"@,
        LogLevel::LogLevelError => "ERROR"@,
        LogLevel::LogLevelWarn => "WARN"@,
        LogLevel::LogLevelInfo => "INFO"@,
        LogLevel::LogLevelDebug => "DEBUG"@,
        LogLevel::LogLevelTrace => "TRACE"@,
    }
}

pub fn get_level_color(level: LogLevel) -> (r: u8)
    ensures
        r == spec_level_color(level),
{
    match level {
        LogLevel::LogLevelFatal => 30,
        LogLevel::LogLevelError => 31,
        LogLevel::LogLevelWarn => 33,
        LogLevel::LogLevelInfo => 32,
        LogLevel::LogLevelDebug => 34,
        LogLevel::LogLevelTrace => 36,
    }
}

pub fn get_level_string<'a>(level: LogLevel) -> (r: &'a str)
    ensures
        r@ == spec_level_string(level),
{
    match level {
        LogLevel::LogLevelFatal => "FATAL",
        LogLevel::LogLevelError => "ERROR",
        LogLevel::LogLevelWarn => "WARN",
        LogLevel::LogLevelInfo => "INFO",
        LogLevel::LogLevelDebug => "DEBUG",
        LogLevel::LogLevelTrace => "TRACE",
    }
}

} // verus!
