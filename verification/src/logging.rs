//! The verbosity of the log, chosen by name.

use std::str::FromStr;
use vstd::prelude::*;
use crate::text::{folded, word};

verus! {

/// How much is logged: nothing, or everything up to a level.
#[derive(Debug, Clone, Copy, PartialEq, Eq, Structural)]
pub enum Verbosity {
    Off,
    Error,
    Warn,
    Info,
    Debug,
    Trace,
}

/// The verbosity that `name` names, letter case ignored.
pub open spec fn level_named(name: Seq<u8>) -> Option<Verbosity> {
    if folded(name) == folded(word("OFF")) {
        Some(Verbosity::Off)
    } else if folded(name) == folded(word("ERROR")) {
        Some(Verbosity::Error)
    } else if folded(name) == folded(word("WARN")) {
        Some(Verbosity::Warn)
    } else if folded(name) == folded(word("INFO")) {
        Some(Verbosity::Info)
    } else if folded(name) == folded(word("DEBUG")) {
        Some(Verbosity::Debug)
    } else if folded(name) == folded(word("TRACE")) {
        Some(Verbosity::Trace)
    } else {
        None
    }
}

/// Calls `log::LevelFilter::from_str`. That function compares the text with
/// the names OFF, ERROR, WARN, INFO, DEBUG and TRACE, in this order and
/// without regard to ASCII case, and gives the level of the first that is
/// equal; the contract says so. A name that is no UTF-8 holds a byte that is
/// in none of the six and so names no level.
#[verifier::external_body]
fn named_level(name: &[u8]) -> (r: Option<Verbosity>)
    ensures
        r == level_named(name@),
{
    let text = std::str::from_utf8(name).ok()?;
    match log::LevelFilter::from_str(text) {
        Ok(log::LevelFilter::Off) => Some(Verbosity::Off),
        Ok(log::LevelFilter::Error) => Some(Verbosity::Error),
        Ok(log::LevelFilter::Warn) => Some(Verbosity::Warn),
        Ok(log::LevelFilter::Info) => Some(Verbosity::Info),
        Ok(log::LevelFilter::Debug) => Some(Verbosity::Debug),
        Ok(log::LevelFilter::Trace) => Some(Verbosity::Trace),
        Err(_) => None,
    }
}

/// The verbosity that was asked for by name; `Info` where the name names
/// none.
pub fn verbosity_for(name: &[u8]) -> (v: Verbosity)
    ensures
        v == match level_named(name@) {
            Some(level) => level,
            None => Verbosity::Info,
        },
{
    match named_level(name) {
        Some(level) => level,
        None => Verbosity::Info,
    }
}

} // verus!
