//! Bounded status logs: the status bar keeps the latest messages, dropping the oldest once a
//! log is full.

use vstd::prelude::*;
use std::collections::VecDeque;

verus! {

/// Messages kept by the application's status bar.
pub const STATUS_LOG_CAP: usize = 50;

/// Messages kept by the shared status log filled outside the application.
pub const GLOBAL_STATUS_CAP: usize = 200;

/// Captured system exclusive messages kept by the dump capture.
pub const CAPTURE_CAP: usize = 5000;

/// Appends a message to a log holding at most `cap` messages: when it is full, the oldest
/// message is dropped first.
pub fn push_bounded<T>(log: &mut VecDeque<T>, msg: T, cap: usize)
    ensures
        old(log)@.len() >= cap && old(log)@.len() > 0 ==> final(log)@ == old(log)@.drop_first().push(msg),
        !(old(log)@.len() >= cap && old(log)@.len() > 0) ==> final(log)@ == old(log)@.push(msg),
{
    if log.len() >= cap {
        let _dropped = log.pop_front();
    }
    log.push_back(msg);
}

/// Keeps only the newest `cap` entries of a log, dropping the oldest.
pub fn keep_newest<T>(log: &mut Vec<T>, cap: usize)
    ensures
        old(log)@.len() > cap ==> final(log)@ == old(log)@.skip(old(log)@.len() - cap),
        old(log)@.len() <= cap ==> final(log)@ == old(log)@,
{
    if log.len() > cap {
        let excess = log.len() - cap;
        let rest = log.split_off(excess);
        *log = rest;
    }
}

} // verus!
