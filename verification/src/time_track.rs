//! Time spent in each phase of the work, summed up between two progress
//! lines.

use crate::text::{append_decimal, decimal};
use std::time::Duration;
use vstd::arithmetic::div_mod::{lemma_fundamental_div_mod, lemma_fundamental_div_mod_converse};
use vstd::prelude::*;
use vstd::string::StringExecFns;

verus! {

/// The phases that are timed.
#[derive(Debug, Clone, Copy, PartialEq, Eq, Structural)]
pub enum Metric {
    Select,
    Insert,
    Encode,
    Warp,
    Compose,
}

/// The length of a duration in nanoseconds.
pub uninterp spec fn nanos_of(duration: Duration) -> u128;

/// `Duration::as_nanos` of std: the whole duration in nanoseconds.
#[verifier::external_body]
fn as_nanos(duration: Duration) -> (nanos: u128)
    ensures
        nanos == nanos_of(duration),
{
    duration.as_nanos()
}

/// How often a phase ran and how long it took in all.
pub struct TimeTrack {
    count: u32,
    nanos: u128,
}

impl TimeTrack {
    /// Number of durations added.
    pub closed spec fn runs(&self) -> nat {
        self.count as nat
    }

    /// Sum of the durations added, in nanoseconds.
    pub closed spec fn total(&self) -> nat {
        self.nanos as nat
    }

    /// Whether one more duration of `nanos` nanoseconds can be counted.
    pub open spec fn has_room(&self, nanos: u128) -> bool {
        self.runs() < u32::MAX && self.total() + nanos <= u128::MAX
    }

    /// A timer at zero.
    pub fn new() -> (track: TimeTrack)
        ensures
            track.runs() == 0,
            track.total() == 0,
    {
        TimeTrack { count: 0, nanos: 0 }
    }

    /// Whether one more duration can be counted (see `has_room`).
    pub fn fits(&self, duration: Duration) -> (ok: bool)
        ensures
            ok == self.has_room(nanos_of(duration)),
    {
        let nanos = as_nanos(duration);
        self.count < u32::MAX && self.nanos <= u128::MAX - nanos
    }

    /// Counts one more duration.
    pub fn add(&mut self, duration: Duration)
        requires
            old(self).has_room(nanos_of(duration)),
        ensures
            final(self).runs() == old(self).runs() + 1,
            final(self).total() == old(self).total() + nanos_of(duration),
    {
        self.nanos = self.nanos + as_nanos(duration);
        self.count = self.count + 1;
    }

    /// Counts the duration where there is room for it, and says whether
    /// there was; without room nothing changes.
    pub fn try_add(&mut self, duration: Duration) -> (counted: bool)
        ensures
            counted == old(self).has_room(nanos_of(duration)),
            counted ==> final(self).runs() == old(self).runs() + 1 && final(self).total() == old(
                self,
            ).total() + nanos_of(duration),
            !counted ==> final(self).runs() == old(self).runs() && final(self).total() == old(
                self,
            ).total(),
    {
        if self.fits(duration) {
            self.add(duration);
            true
        } else {
            false
        }
    }
}

/// Whole milliseconds in the sum of four counts of nanoseconds.
fn millis_of_sum(a: u128, b: u128, c: u128, d: u128) -> (millis: u128)
    ensures
        millis == (a + b + c + d) / 1_000_000,
{
    let whole = a / 1_000_000 + b / 1_000_000 + c / 1_000_000 + d / 1_000_000;
    let parts = a % 1_000_000 + b % 1_000_000 + c % 1_000_000 + d % 1_000_000;
    proof {
        lemma_fundamental_div_mod(a as int, 1_000_000);
        lemma_fundamental_div_mod(b as int, 1_000_000);
        lemma_fundamental_div_mod(c as int, 1_000_000);
        lemma_fundamental_div_mod(d as int, 1_000_000);
        lemma_fundamental_div_mod(parts as int, 1_000_000);
        lemma_fundamental_div_mod_converse(
            a + b + c + d,
            1_000_000,
            whole + parts / 1_000_000,
            parts as int % 1_000_000,
        );
    }
    whole + parts / 1_000_000
}

impl TimeTrack {
    /// The timer as text: a dash where nothing was counted, else the sum in
    /// milliseconds, the count and the mean in milliseconds, as `sum/count=mean`.
    pub open spec fn text(&self) -> Seq<char> {
        if self.runs() == 0 {
            "-"@
        } else {
            decimal(self.total() / 1_000_000) + "/"@ + decimal(self.runs()) + "="@ + decimal(
                self.total() / self.runs() / 1_000_000,
            )
        }
    }

    /// Appends the timer as text.
    pub fn append_to(&self, out: &mut String)
        ensures
            final(out)@ == old(out)@ + self.text(),
    {
        if self.count == 0 {
            out.append("-");
        } else {
            append_decimal(out, self.nanos / 1_000_000);
            out.append("/");
            append_decimal(out, self.count as u128);
            out.append("=");
            append_decimal(out, self.nanos / (self.count as u128) / 1_000_000);
            proof {
                assert(out@ =~= old(out)@ + self.text());
            }
        }
    }

    /// The timer as text.
    pub fn to_text(&self) -> (out: String)
        ensures
            out@ == self.text(),
    {
        let mut out = String::new();
        self.append_to(&mut out);
        proof {
            assert(out@ =~= self.text());
        }
        out
    }
}

/// The five phase timers.
pub struct TimeStats {
    select: TimeTrack,
    insert: TimeTrack,
    warp: TimeTrack,
    compose: TimeTrack,
    encode: TimeTrack,
}

impl TimeStats {
    /// The timer of a phase.
    pub closed spec fn track(&self, metric: Metric) -> TimeTrack {
        match metric {
            Metric::Select => self.select,
            Metric::Insert => self.insert,
            Metric::Warp => self.warp,
            Metric::Compose => self.compose,
            Metric::Encode => self.encode,
        }
    }

    /// Five timers at zero.
    pub fn new() -> (stats: TimeStats)
        ensures
            forall|m: Metric|
                (#[trigger] stats.track(m)).runs() == 0 && stats.track(m).total() == 0,
    {
        TimeStats {
            select: TimeTrack::new(),
            insert: TimeTrack::new(),
            warp: TimeTrack::new(),
            compose: TimeTrack::new(),
            encode: TimeTrack::new(),
        }
    }

    /// Whether one more duration can be counted for the phase.
    pub fn fits(&self, metric: &Metric, duration: Duration) -> (ok: bool)
        ensures
            ok == self.track(*metric).has_room(nanos_of(duration)),
    {
        match metric {
            Metric::Select => self.select.fits(duration),
            Metric::Insert => self.insert.fits(duration),
            Metric::Warp => self.warp.fits(duration),
            Metric::Compose => self.compose.fits(duration),
            Metric::Encode => self.encode.fits(duration),
        }
    }

    /// Counts a duration for one phase; the other phases stay as they are.
    pub fn add(&mut self, metric: &Metric, duration: Duration)
        requires
            old(self).track(*metric).has_room(nanos_of(duration)),
        ensures
            final(self).track(*metric).runs() == old(self).track(*metric).runs() + 1,
            final(self).track(*metric).total() == old(self).track(*metric).total() + nanos_of(
                duration,
            ),
            forall|m: Metric| m != *metric ==> #[trigger] final(self).track(m) == old(self).track(m),
    {
        match metric {
            Metric::Select => self.select.add(duration),
            Metric::Insert => self.insert.add(duration),
            Metric::Warp => self.warp.add(duration),
            Metric::Compose => self.compose.add(duration),
            Metric::Encode => self.encode.add(duration),
        }
    }

    /// Counts a duration for one phase where there is room for it, and says
    /// whether there was; without room nothing changes.
    pub fn try_add(&mut self, metric: &Metric, duration: Duration) -> (counted: bool)
        ensures
            counted == old(self).track(*metric).has_room(nanos_of(duration)),
            counted ==> final(self).track(*metric).runs() == old(self).track(*metric).runs() + 1
                && final(self).track(*metric).total() == old(self).track(*metric).total()
                + nanos_of(duration),
            !counted ==> final(self).track(*metric).runs() == old(self).track(*metric).runs()
                && final(self).track(*metric).total() == old(self).track(*metric).total(),
            forall|m: Metric| m != *metric ==> #[trigger] final(self).track(m) == old(self).track(m),
    {
        if self.fits(metric, duration) {
            self.add(metric, duration);
            true
        } else {
            false
        }
    }

    /// The line of the five timers, and after the bar the milliseconds
    /// spent reading, writing, reprojecting and composing together.
    pub open spec fn text(&self) -> Seq<char> {
        "select: "@ + self.track(Metric::Select).text() + ", insert: "@ + self.track(
            Metric::Insert,
        ).text() + ", warp: "@ + self.track(Metric::Warp).text() + ", compose: "@ + self.track(
            Metric::Compose,
        ).text() + ", processing: "@ + self.track(Metric::Encode).text() + " | "@ + decimal(
            (self.track(Metric::Select).total() + self.track(Metric::Insert).total() + self.track(
                Metric::Warp,
            ).total() + self.track(Metric::Compose).total()) / 1_000_000,
        )
    }

    /// The line of the five timers as text.
    pub fn to_text(&self) -> (out: String)
        ensures
            out@ == self.text(),
    {
        let mut out = String::from_str("select: ");
        self.select.append_to(&mut out);
        out.append(", insert: ");
        self.insert.append_to(&mut out);
        out.append(", warp: ");
        self.warp.append_to(&mut out);
        out.append(", compose: ");
        self.compose.append_to(&mut out);
        out.append(", processing: ");
        self.encode.append_to(&mut out);
        out.append(" | ");
        append_decimal(
            &mut out,
            millis_of_sum(self.select.nanos, self.insert.nanos, self.warp.nanos, self.compose.nanos),
        );
        proof {
            assert(out@ =~= self.text());
        }
        out
    }
}

} // verus!
