//! The hardware smoke test's bookkeeping: how check results are counted,
//! whether the run passed, and the human-readable report lines.

use vstd::prelude::*;
use crate::text::{dec, owned, push_dec};

verus! {

/// The outcome of one check.
#[derive(Clone, Copy, Debug, PartialEq, Eq, Structural)]
pub enum CheckStatus {
    Pass,
    Fail,
    Skip,
}

/// Counts of required and optional checks, and of those that passed.
pub struct CheckTally {
    pub required_total: u32,
    pub required_passed: u32,
    pub optional_total: u32,
    pub optional_passed: u32,
}

/// A check counts as passed when it succeeded; an optional one also when it
/// was skipped (the feature is simply not there).
pub open spec fn counts_as_passed(required: bool, status: CheckStatus) -> bool {
    status == CheckStatus::Pass || (!required && status == CheckStatus::Skip)
}

impl CheckTally {
    pub open spec fn wf(&self) -> bool {
        self.required_passed <= self.required_total && self.optional_passed <= self.optional_total
    }

    pub fn new() -> (t: CheckTally)
        ensures
            t.wf(),
            t.required_total == 0 && t.required_passed == 0,
            t.optional_total == 0 && t.optional_passed == 0,
    {
        CheckTally { required_total: 0, required_passed: 0, optional_total: 0, optional_passed: 0 }
    }

    /// Counts one check.
    pub fn record(&mut self, required: bool, status: CheckStatus)
        requires
            old(self).wf(),
            old(self).required_total < u32::MAX,
            old(self).optional_total < u32::MAX,
        ensures
            final(self).wf(),
            required ==> final(self).required_total == old(self).required_total + 1
                && final(self).required_passed == old(self).required_passed + (if counts_as_passed(true, status) { 1int } else { 0 })
                && final(self).optional_total == old(self).optional_total
                && final(self).optional_passed == old(self).optional_passed,
            !required ==> final(self).optional_total == old(self).optional_total + 1
                && final(self).optional_passed == old(self).optional_passed + (if counts_as_passed(false, status) { 1int } else { 0 })
                && final(self).required_total == old(self).required_total
                && final(self).required_passed == old(self).required_passed,
    {
        if required {
            self.required_total = self.required_total + 1;
            if status == CheckStatus::Pass {
                self.required_passed = self.required_passed + 1;
            }
        } else {
            self.optional_total = self.optional_total + 1;
            if status == CheckStatus::Pass || status == CheckStatus::Skip {
                self.optional_passed = self.optional_passed + 1;
            }
        }
    }

    /// The run passes when every required check passed.
    pub fn passed(&self) -> (b: bool)
        ensures
            b == (self.required_passed == self.required_total),
    {
        self.required_passed == self.required_total
    }
}

pub open spec fn status_tag(s: CheckStatus) -> Seq<char> {
    match s {
        CheckStatus::Pass => "PASS"@,
        CheckStatus::Fail => "FAIL"@,
        CheckStatus::Skip => "SKIP"@,
    }
}

/// One check in the human-readable report: tag, name, whether it is
/// required, and the detail on an indented second line.
pub open spec fn step_text(name: Seq<char>, required: bool, status: CheckStatus, detail: Seq<char>) -> Seq<char> {
    "["@ + status_tag(status) + "] "@ + name + " "@ + (if required { "(required)"@ } else { "(optional)"@ })
        + "\n        "@ + detail
}

/// The report line of one check.
pub fn pretty_step(name: &str, required: bool, status: CheckStatus, detail: &str) -> (r: String)
    ensures
        r@ == step_text(name@, required, status, detail@),
{
    let mut s = owned("[");
    match status {
        CheckStatus::Pass => s.append("PASS"),
        CheckStatus::Fail => s.append("FAIL"),
        CheckStatus::Skip => s.append("SKIP"),
    }
    s.append("] ");
    s.append(name);
    s.append(" ");
    if required {
        s.append("(required)");
    } else {
        s.append("(optional)");
    }
    s.append("\n        ");
    s.append(detail);
    s
}

/// The closing summary of the human-readable report.
pub open spec fn summary_text(t: CheckTally) -> Seq<char> {
    "\nSummary: required "@ + dec(t.required_passed as nat) + "/"@ + dec(t.required_total as nat) + ", optional "@
        + dec(t.optional_passed as nat) + "/"@ + dec(t.optional_total as nat) + " \u{2014} "@
        + (if t.required_passed == t.required_total { "ok"@ } else { "fail"@ })
}

/// The summary line of a finished run.
pub fn pretty_summary(t: &CheckTally) -> (r: String)
    ensures
        r@ == summary_text(*t),
{
    let mut s = owned("\nSummary: required ");
    push_dec(&mut s, t.required_passed as u64);
    s.append("/");
    push_dec(&mut s, t.required_total as u64);
    s.append(", optional ");
    push_dec(&mut s, t.optional_passed as u64);
    s.append("/");
    push_dec(&mut s, t.optional_total as u64);
    s.append(" \u{2014} ");
    if t.passed() {
        s.append("ok");
    } else {
        s.append("fail");
    }
    s
}

} // verus!
