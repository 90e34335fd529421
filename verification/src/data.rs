//! Plain data carried through the probing engine: findings, probe responses,
//! the immutable scan configuration, and the fatal error kinds.

use vstd::prelude::*;

verus! {

/// Why a parameter was recorded as a finding.
#[derive(Clone, Copy, PartialEq, Eq, Structural, Debug)]
pub enum ReasonKind {
    Reflected,
    NotReflected,
    Code,
    Text,
}

/// A recorded parameter together with its evidence.
#[derive(Debug)]
pub struct FoundParameter {
    pub name: String,
    pub diffs: Vec<String>,
    pub status_code: u16,
    pub body_length: usize,
    pub reason: ReasonKind,
}

/// What the transport and the differ report about one probe response,
/// already reduced to the fields the engine reads: the status code, the
/// body length, the reflection annotation (a candidate name echoed in the
/// body, and whether more reflections may remain), and the structural
/// diffs against the baseline.
#[derive(Debug)]
pub struct Response {
    pub code: u16,
    pub body_length: usize,
    pub reflected: Option<String>,
    pub repeat: bool,
    pub diffs: Vec<String>,
}

/// A response whose differ-relevant fields are indistinguishable from the
/// baseline: same code, no diffs, no reflection.
pub open spec fn response_clean(r: Response, baseline_code: u16) -> bool {
    &&& r.code == baseline_code
    &&& r.diffs@.len() == 0
    &&& r.reflected is None
    &&& !r.repeat
}

impl Response {
    /// The synthetic response substituted when a probe fails at the
    /// transport but a control probe shows the server is alive: it carries
    /// no signal at all.
    pub fn empty(baseline_code: u16) -> (r: Response)
        ensures
            response_clean(r, baseline_code),
            r.body_length == 0,
    {
        Response {
            code: baseline_code,
            body_length: 0,
            reflected: None,
            repeat: false,
            diffs: Vec::new(),
        }
    }
}

/// Immutable per-scan configuration.
#[derive(Debug)]
pub struct ScanConfig {
    /// Whether reflection analysis is enabled (the page's reflections are stable).
    pub stable_reflections: bool,
    /// Whether body analysis is enabled (the page's body is stable).
    pub stable_body: bool,
    /// Stop after the reflection check; do not look at codes or bodies.
    pub reflected_only: bool,
    /// Drop findings whose diff signature repeats an earlier finding.
    pub strict: bool,
    /// Status code of the baseline response.
    pub baseline_code: u16,
    /// Target URL, reported when the page turns unstable.
    pub url: String,
    /// Initial chunk size for splitting the dictionary.
    pub max: usize,
    /// How many chunks a driver may probe at once; the engine itself is
    /// sequential, the bound is advice to the driver.
    pub concurrency: usize,
}

/// A fatal error: it aborts the whole scan.
#[derive(Debug)]
pub enum ScanError {
    /// Both a real probe and its control probe failed at the transport.
    UnreachableServer,
    /// Too many consecutive divergent status codes, confirmed by a control
    /// probe; carries the target URL.
    PageUnstableCode(String),
    /// The noise-control probe failed at the transport.
    ControlProbeFailed,
}

} // verus!
