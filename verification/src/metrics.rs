//! Operation counters for observability.
use vstd::prelude::*;
use std::time::Instant;
use crate::text::{push_decimal, spec_decimal};

verus! {

#[verifier::external_type_specification]
#[verifier::external_body]
pub struct ExInstant(Instant);

/// Calls `Instant::now`. Nothing is claimed of the result: it is the time.
#[verifier::external_body]
fn instant_now() -> Instant {
    Instant::now()
}

/// Tracks operation counts for observability.
pub struct Metrics {
    gets: u64,
    sets: u64,
    deletes: u64,
    errors: u64,
    start_time: Instant,
}

/// `n + 1`, wrapping to 0 after `u64::MAX`.
pub open spec fn bump(n: u64) -> u64 {
    if n == u64::MAX {
        0
    } else {
        (n + 1) as u64
    }
}

/// The summary line for the given uptime text (seconds, as the caller
/// formats them) and counts.
pub open spec fn spec_summary(uptime: Seq<char>, gets: u64, sets: u64, deletes: u64, errors: u64) -> Seq<char> {
    "Uptime: "@ + uptime
        + "s | GETs: "@ + spec_decimal(gets as nat)
        + " | SETs: "@ + spec_decimal(sets as nat)
        + " | DELETEs: "@ + spec_decimal(deletes as nat)
        + " | Errors: "@ + spec_decimal(errors as nat)
}

impl Metrics {
    pub closed spec fn gets_view(&self) -> u64 {
        self.gets
    }

    pub closed spec fn sets_view(&self) -> u64 {
        self.sets
    }

    pub closed spec fn deletes_view(&self) -> u64 {
        self.deletes
    }

    pub closed spec fn errors_view(&self) -> u64 {
        self.errors
    }

    /// The instant at which counting started.
    pub closed spec fn start_view(&self) -> Instant {
        self.start_time
    }

    /// All counters at zero; the uptime clock starts now.
    pub fn new() -> (m: Self)
        ensures
            m.gets_view() == 0,
            m.sets_view() == 0,
            m.deletes_view() == 0,
            m.errors_view() == 0,
    {
        Metrics { gets: 0, sets: 0, deletes: 0, errors: 0, start_time: instant_now() }
    }

    pub fn record_get(&mut self)
        ensures
            final(self).gets_view() == bump(old(self).gets_view()),
            final(self).sets_view() == old(self).sets_view(),
            final(self).deletes_view() == old(self).deletes_view(),
            final(self).errors_view() == old(self).errors_view(),
    {
        self.gets = self.gets.wrapping_add(1);
    }

    pub fn record_set(&mut self)
        ensures
            final(self).sets_view() == bump(old(self).sets_view()),
            final(self).gets_view() == old(self).gets_view(),
            final(self).deletes_view() == old(self).deletes_view(),
            final(self).errors_view() == old(self).errors_view(),
    {
        self.sets = self.sets.wrapping_add(1);
    }

    pub fn record_delete(&mut self)
        ensures
            final(self).deletes_view() == bump(old(self).deletes_view()),
            final(self).gets_view() == old(self).gets_view(),
            final(self).sets_view() == old(self).sets_view(),
            final(self).errors_view() == old(self).errors_view(),
    {
        self.deletes = self.deletes.wrapping_add(1);
    }

    pub fn record_error(&mut self)
        ensures
            final(self).errors_view() == bump(old(self).errors_view()),
            final(self).gets_view() == old(self).gets_view(),
            final(self).sets_view() == old(self).sets_view(),
            final(self).deletes_view() == old(self).deletes_view(),
    {
        self.errors = self.errors.wrapping_add(1);
    }

    pub fn total_gets(&self) -> (n: u64)
        ensures
            n == self.gets_view(),
    {
        self.gets
    }

    pub fn total_sets(&self) -> (n: u64)
        ensures
            n == self.sets_view(),
    {
        self.sets
    }

    pub fn total_deletes(&self) -> (n: u64)
        ensures
            n == self.deletes_view(),
    {
        self.deletes
    }

    pub fn total_errors(&self) -> (n: u64)
        ensures
            n == self.errors_view(),
    {
        self.errors
    }

    /// When counting started.
    pub fn start_time(&self) -> (t: &Instant)
        ensures
            *t == self.start_view(),
    {
        &self.start_time
    }

    /// "Uptime: {uptime}s | GETs: {n} | SETs: {n} | DELETEs: {n} | Errors: {n}",
    /// where `uptime` is the time since `start_time()` in seconds, with one
    /// decimal, as the caller formats it.
    pub fn summary(&self, uptime: &str) -> (s: String)
        ensures
            s@ == spec_summary(uptime@, self.gets_view(), self.sets_view(), self.deletes_view(), self.errors_view()),
    {
        summary_line(uptime, self.gets, self.sets, self.deletes, self.errors)
    }
}

/// The summary line for an uptime text and the operation counts.
pub fn summary_line(uptime: &str, gets: u64, sets: u64, deletes: u64, errors: u64) -> (s: String)
    ensures
        s@ == spec_summary(uptime@, gets, sets, deletes, errors),
{
    let mut s = String::from_str("Uptime: ");
    s.append(uptime);
    s.append("s | GETs: ");
    push_decimal(&mut s, gets as u128);
    s.append(" | SETs: ");
    push_decimal(&mut s, sets as u128);
    s.append(" | DELETEs: ");
    push_decimal(&mut s, deletes as u128);
    s.append(" | Errors: ");
    push_decimal(&mut s, errors as u128);
    s
}

} // verus!
