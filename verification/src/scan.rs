//! The batch dispatcher: splits the dictionary into chunks of at most `max`
//! names, runs a bisector over each, and collects the ledger. The engine is
//! sequential; a driver that wants parallel chunks runs one `Bisector` per
//! chunk against a shared `Ledger` instead.

use vstd::prelude::*;

use crate::bisect::{
    awaiting, budget, frame_live, noise_step, probe_step, skip_guards, stability_step,
    wait_count, Action, Bisector, Frame, Wait,
};
use crate::data::{FoundParameter, Response, ScanConfig, ScanError, response_clean};
use crate::ledger::Ledger;
use crate::names::clone_names;

verus! {

/// Names still waiting in the chunks from position `i` on.
pub open spec fn chunks_count_from(s: Seq<Vec<String>>, i: int) -> nat
    decreases s.len() - i,
{
    if i < 0 || i >= s.len() {
        0
    } else {
        s[i]@.len() + chunks_count_from(s, i + 1)
    }
}

/// Names the whole scan still holds: unstarted chunks plus the running
/// bisector's budget. Every finding consumes at least one unit, so the
/// number of findings never exceeds the dictionary's size.
pub open spec fn scan_budget(sc: Scan) -> nat {
    chunks_count_from(sc.chunks@, sc.next_chunk as int) + budget(sc.bis)
}

/// What every public transition of a scan — `next`, `on_response`,
/// `on_failure` — ensures of the state: the configuration and the
/// dictionary are fixed, the ledger only grows, and a finding is only ever
/// bought by spending a name of the budget. Chained over a whole run, this
/// bounds the findings by the dictionary's size.
pub open spec fn scan_transition(s0: Scan, s1: Scan) -> bool {
    &&& s1.cfg == s0.cfg
    &&& s1.chunks == s0.chunks
    &&& s0.ledger.found@.is_prefix_of(s1.ledger.found@)
    &&& s0.ledger.diffs.deep_view().is_prefix_of(s1.ledger.diffs.deep_view())
    &&& s1.ledger.found@.len() + scan_budget(s1) <= s0.ledger.found@.len() + scan_budget(s0)
}

/// How `Scan::on_response` relates the old state, the response and the new
/// state: exactly the running bisector's step on the shared ledger.
pub open spec fn scan_response_step(s0: Scan, resp: Response, s1: Scan, r: Result<
    (),
    ScanError,
>) -> bool {
    match s0.bis.wait {
        Wait::Probe { names, depth } => r is Ok && probe_step(
            s0.cfg,
            s0.ledger,
            s0.bis.pending@,
            names@,
            depth as int,
            resp,
            s1.ledger,
            s1.bis,
        ),
        Wait::FailControl { .. } => r is Ok && s1.ledger == s0.ledger && s1.bis.wait is Idle
            && s1.bis.pending@ == s0.bis.pending@,
        Wait::Stability { names, depth, response } => stability_step(
            s0.cfg,
            s0.ledger,
            s0.bis.pending@,
            names@,
            depth as int,
            response,
            resp.code,
            s1.ledger,
            s1.bis,
            r,
        ),
        Wait::Noise { names, depth, response, fresh } => r is Ok && noise_step(
            s0.cfg,
            s0.ledger,
            s0.bis.pending@,
            names@,
            depth as int,
            response,
            fresh.deep_view(),
            resp,
            s1.ledger,
            s1.bis,
        ),
        _ => true,
    }
}

/// How `Scan::on_failure` relates the old state and the new: exactly the
/// running bisector's failure step. A failed real probe waits for a
/// fail-control probe; a failed fail-control probe is a dead server; a
/// failed stability control reads as status code zero; a failed noise
/// control aborts the branch.
pub open spec fn scan_failure_step(s0: Scan, s1: Scan, r: Result<(), ScanError>) -> bool {
    match s0.bis.wait {
        Wait::Probe { names, depth } => r is Ok && s1.ledger == s0.ledger && s1.bis.pending@
            == s0.bis.pending@ && s1.bis.wait == (Wait::FailControl { names, depth }),
        Wait::FailControl { .. } => s1.ledger == s0.ledger && s1.bis.pending@ == s0.bis.pending@
            && s1.bis.wait is Finished && (r matches Err(e) && e is UnreachableServer),
        Wait::Stability { names, depth, response } => stability_step(
            s0.cfg,
            s0.ledger,
            s0.bis.pending@,
            names@,
            depth as int,
            response,
            0u16,
            s1.ledger,
            s1.bis,
            r,
        ),
        Wait::Noise { .. } => s1.ledger == s0.ledger && s1.bis.pending@ == s0.bis.pending@
            && s1.bis.wait is Finished && (r matches Err(e) && e is ControlProbeFailed),
        _ => true,
    }
}

/// The first chunk from position `i` on that holds any name, or the number
/// of chunks when none does.
pub open spec fn first_live_chunk(s: Seq<Vec<String>>, i: int) -> int
    decreases s.len() - i,
{
    if i < 0 || i >= s.len() {
        s.len() as int
    } else if s[i]@.len() > 0 {
        i
    } else {
        first_live_chunk(s, i + 1)
    }
}

/// The dictionary as the chunks spell it, in order.
pub open spec fn chunks_flatten(s: Seq<Vec<String>>) -> Seq<String>
    decreases s.len(),
{
    if s.len() == 0 {
        Seq::empty()
    } else {
        chunks_flatten(s.drop_last()) + s.last()@
    }
}

pub proof fn lemma_first_live_chunk_bounds(s: Seq<Vec<String>>, i: int)
    requires
        0 <= i <= s.len(),
    ensures
        i <= first_live_chunk(s, i) <= s.len(),
        first_live_chunk(s, i) < s.len() ==> s[first_live_chunk(s, i)]@.len() > 0,
    decreases s.len() - i,
{
    if i < s.len() && s[i]@.len() == 0 {
        lemma_first_live_chunk_bounds(s, i + 1);
    }
}

proof fn lemma_chunks_flatten_push(s: Seq<Vec<String>>, c: Vec<String>)
    ensures
        chunks_flatten(s.push(c)) == chunks_flatten(s) + c@,
{
    assert(s.push(c).drop_last() =~= s);
}

/// A whole scan: configuration, shared ledger, the dictionary in chunks,
/// and the bisector of the chunk being worked.
pub struct Scan {
    /// Immutable configuration.
    pub cfg: ScanConfig,
    /// The shared state: noise diffs, code counters, findings.
    pub ledger: Ledger,
    /// The dictionary, split into consecutive chunks of at most `max` names.
    pub chunks: Vec<Vec<String>>,
    /// Index of the first chunk not yet handed to a bisector.
    pub next_chunk: usize,
    /// The bisector working the current chunk.
    pub bis: Bisector,
    /// A fatal error was reported; the scan hands out no further work.
    pub halted: bool,
}

impl Scan {
    /// Sets up a scan of `params`: the ledger starts from the scan's known
    /// diffs, and the dictionary is cut into consecutive chunks of
    /// `min(cfg.max, params.len())` names. An empty dictionary makes no
    /// chunks at all, so nothing is ever probed for it.
    pub fn new(cfg: ScanConfig, initial_diffs: Vec<String>, params: Vec<String>) -> (r: Scan)
        requires
            cfg.max >= 1,
        ensures
            r.cfg == cfg,
            r.ledger.diffs == initial_diffs,
            r.ledger.found@.len() == 0,
            r.ledger.codes@.len() == 0,
            !r.halted,
            r.next_chunk == 0,
            scan_budget(r) == params@.len(),
            params@.len() == 0 ==> r.chunks@.len() == 0 && budget(r.bis) == 0,
            params@.len() >= 1 ==> r.chunks@.len() >= 1,
            (params@.len() >= 1 && params@.len() <= cfg.max) ==> (r.chunks@.len() == 1
                && r.chunks@[0]@ == params@),
            r.bis.wait is Idle,
            r.bis.pending@.len() == 0,
            chunks_flatten(r.chunks@) == params@,
            ({
                let cs = if cfg.max < params@.len() {
                    cfg.max as int
                } else {
                    params@.len() as int
                };
                &&& forall|j: int|
                    0 <= j < r.chunks@.len() ==> 1 <= (#[trigger] r.chunks@[j]@).len() <= cs
                &&& forall|j: int|
                    0 <= j < r.chunks@.len() - 1 ==> (#[trigger] r.chunks@[j]@).len() == cs
            }),
    {
        let chunk_size = if cfg.max < params.len() {
            cfg.max
        } else {
            params.len()
        };
        let mut chunks: Vec<Vec<String>> = Vec::new();
        let mut current: Vec<String> = Vec::new();
        let mut i: usize = 0;
        proof {
            assert(chunks_flatten(chunks@) + current@ =~= params@.take(0));
        }
        while i < params.len()
            invariant
                i <= params@.len(),
                chunk_size <= params@.len(),
                params@.len() > 0 ==> chunk_size >= 1,
                params@.len() > 0 ==> current@.len() < chunk_size,
                chunks_count_from(chunks@, 0) + current@.len() == i,
                chunks_flatten(chunks@) + current@ == params@.take(i as int),
                forall|j: int| 0 <= j < chunks@.len() ==> (#[trigger] chunks@[j]@).len()
                    == chunk_size,
                chunk_size == params@.len() ==> (if i < params@.len() || params@.len() == 0 {
                    chunks@.len() == 0 && current@ == params@.take(i as int)
                } else {
                    chunks@.len() == 1 && chunks@[0]@ == params@ && current@.len() == 0
                }),
            decreases params@.len() - i,
        {
            let e = &params[i];
            let ghost cur0 = current@;
            let ghost flat0 = chunks_flatten(chunks@);
            current.push(String::clone(e));
            proof {
                assert(current@.drop_last() =~= current@.subrange(0, current@.len() - 1));
            }
            i += 1;
            proof {
                assert(current@ == cur0.push(params@[i as int - 1]));
                assert(flat0 + current@ =~= (flat0 + cur0).push(params@[i as int - 1]));
                assert(params@.take(i as int) =~= params@.take(i as int - 1).push(
                    params@[i as int - 1],
                ));
                if chunk_size == params@.len() {
                    assert(current@ =~= params@.take(i as int));
                }
            }
            if current.len() == chunk_size {
                let ghost cbefore = chunks@;
                let ghost flatb = chunks_flatten(chunks@);
                let full = current;
                current = Vec::new();
                chunks.push(full);
                proof {
                    lemma_chunks_count_push(cbefore, chunks@.last());
                    assert(chunks@ == cbefore.push(chunks@.last()));
                    lemma_chunks_flatten_push(cbefore, chunks@.last());
                    assert(chunks_flatten(chunks@) + current@ =~= chunks_flatten(chunks@));
                    assert(chunks_flatten(chunks@) + current@ == params@.take(i as int));
                    assert forall|j: int|
                        0 <= j < chunks@.len() implies (#[trigger] chunks@[j]@).len()
                        == chunk_size by {
                        if j < cbefore.len() {
                            assert(chunks@[j] == cbefore[j]);
                        } else {
                            assert(chunks@[j] == chunks@.last());
                        }
                    }
                }
            }
        }
        let ghost n_full = chunks@.len() as int;
        if current.len() > 0 {
            let ghost cbefore = chunks@;
            let last = current;
            chunks.push(last);
            proof {
                lemma_chunks_count_push(cbefore, chunks@.last());
                assert(chunks@ == cbefore.push(chunks@.last()));
                lemma_chunks_flatten_push(cbefore, chunks@.last());
            }
        }
        proof {
            assert(params@.take(params@.len() as int) =~= params@);
            assert(chunks_flatten(chunks@) == params@) by {
                if chunks@.len() == n_full {
                    assert(chunks_flatten(chunks@) =~= chunks_flatten(chunks@)
                        + Seq::<String>::empty());
                }
            }
            assert forall|j: int|
                0 <= j < chunks@.len() implies 1 <= (#[trigger] chunks@[j]@).len()
                <= chunk_size by {
                if j < n_full {
                } else {
                    assert(chunks@[j] == chunks@.last());
                }
            }
            assert forall|j: int|
                0 <= j < chunks@.len() - 1 implies (#[trigger] chunks@[j]@).len()
                == chunk_size by {
                assert(j < n_full);
            }
            if params@.len() >= 1 {
                assert(chunks_count_from(chunks@, 0) == params@.len());
                if chunks@.len() == 0 {
                    assert(chunks_count_from(chunks@, 0) == 0);
                }
            }
        }
        let r = Scan {
            cfg,
            ledger: Ledger::new(initial_diffs),
            chunks,
            next_chunk: 0,
            bis: Bisector { pending: Vec::new(), wait: Wait::Idle },
            halted: false,
        };
        proof {
            assert(budget(r.bis) == 0) by {
                assert(r.bis.pending@.len() == 0);
            }
        }
        r
    }

    /// Hands the driver its next action: the probe the running bisector
    /// waits for, the probe of its topmost live frame, or — when it is
    /// exhausted — the probe of the first unstarted chunk that holds any
    /// names. `Done` comes out only when no work remains, or after a fatal
    /// error halted the scan. The ledger is never touched here.
    pub fn next(&mut self) -> (a: Action)
        ensures
            final(self).cfg == old(self).cfg,
            final(self).ledger == old(self).ledger,
            final(self).chunks == old(self).chunks,
            final(self).halted == old(self).halted,
            scan_budget(*final(self)) <= scan_budget(*old(self)),
            scan_transition(*old(self), *final(self)),
            final(self).next_chunk >= old(self).next_chunk,
            old(self).halted ==> a is Done && *final(self) == *old(self),
            !old(self).halted && awaiting(old(self).bis.wait) ==> final(self).bis == old(self).bis
                && final(self).next_chunk == old(self).next_chunk,
            old(self).bis.wait matches Wait::Probe { names, .. } ==> old(self).halted || (a
                matches Action::Probe { names: an } && an@ == names@),
            (!old(self).halted && awaiting(old(self).bis.wait) && !(old(self).bis.wait is Probe))
                ==> (a matches Action::RandomProbe { arity } && arity == wait_count(
                old(self).bis.wait,
            )),
            (!old(self).halted && old(self).bis.wait is Idle && skip_guards(
                old(self).bis.pending@,
            ).len() > 0) ==> ({
                let live = skip_guards(old(self).bis.pending@);
                &&& final(self).next_chunk == old(self).next_chunk
                &&& final(self).bis.pending@ == live.drop_last()
                &&& final(self).bis.wait == (Wait::Probe {
                    names: live.last().names,
                    depth: live.last().depth,
                })
                &&& (a matches Action::Probe { names: an } && an@ == live.last().names@)
            }),
            (!old(self).halted && (old(self).bis.wait is Finished || (old(self).bis.wait is Idle
                && skip_guards(old(self).bis.pending@).len() == 0))) ==> ({
                let k = first_live_chunk(old(self).chunks@, old(self).next_chunk as int);
                if k < old(self).chunks@.len() {
                    &&& final(self).next_chunk == k + 1
                    &&& final(self).bis.pending@.len() == 0
                    &&& (final(self).bis.wait matches Wait::Probe { names, depth } && names@
                        == old(self).chunks@[k]@ && depth == 0)
                    &&& (a matches Action::Probe { names: an } && an@ == old(self).chunks@[k]@)
                } else {
                    &&& a is Done
                    &&& final(self).bis.wait is Finished
                    &&& (final(self).bis.pending@ == old(self).bis.pending@ || final(self).bis.pending@.len() == 0)
                }
            }),
            a is Done || awaiting(final(self).bis.wait),
    {
        if self.halted {
            return Action::Done;
        }
        let a = self.bis.next();
        match a {
            Action::Probe { names } => {
                return Action::Probe { names };
            },
            Action::RandomProbe { arity } => {
                return Action::RandomProbe { arity };
            },
            Action::Done => {},
        }
        // The running bisector is exhausted: start chunks until one holds
        // names; empty chunks are consumed without probing.
        let ghost k0 = first_live_chunk(self.chunks@, self.next_chunk as int);
        proof {
            if self.next_chunk as int <= self.chunks@.len() {
                lemma_first_live_chunk_bounds(self.chunks@, self.next_chunk as int);
            }
        }
        loop
            invariant
                self.cfg == old(self).cfg,
                self.ledger == old(self).ledger,
                self.chunks == old(self).chunks,
                self.halted == old(self).halted,
                !self.halted,
                self.bis.wait is Finished,
                old(self).bis.wait is Finished || (old(self).bis.wait is Idle && skip_guards(
                    old(self).bis.pending@,
                ).len() == 0),
                k0 == first_live_chunk(old(self).chunks@, old(self).next_chunk as int),
                first_live_chunk(self.chunks@, self.next_chunk as int) == k0,
                k0 < self.chunks@.len() ==> self.next_chunk as int <= k0,
                self.next_chunk >= old(self).next_chunk,
                self.bis.pending@ == old(self).bis.pending@ || self.bis.pending@.len() == 0,
                scan_budget(*self) <= scan_budget(*old(self)),
            decreases self.chunks@.len() - self.next_chunk,
        {
            if self.next_chunk >= self.chunks.len() {
                return Action::Done;
            }
            let ghost kcur = self.next_chunk as int;
            let c = clone_names(&self.chunks[self.next_chunk]);
            self.next_chunk += 1;
            self.bis = Bisector::new(c);
            proof {
                assert(chunks_count_from(self.chunks@, kcur) == self.chunks@[kcur]@.len()
                    + chunks_count_from(self.chunks@, kcur + 1));
                lemma_first_live_chunk_bounds(self.chunks@, kcur + 1);
            }
            let ghost started = self.bis.pending@;
            let a2 = self.bis.next();
            match a2 {
                Action::Probe { names } => {
                    proof {
                        assert(skip_guards(started).len() > 0);
                        assert(frame_live(started.last())) by {
                            if !frame_live(started.last()) {
                                assert(started.drop_last() =~= Seq::<Frame>::empty());
                                assert(skip_guards(started) == skip_guards(started.drop_last()));
                            }
                        }
                        assert(skip_guards(started) == started);
                        assert(self.chunks@[kcur]@.len() > 0);
                        assert(first_live_chunk(self.chunks@, kcur) == kcur);
                    }
                    return Action::Probe { names };
                },
                Action::RandomProbe { arity } => {
                    proof {
                        assert(false);
                    }
                    return Action::RandomProbe { arity };
                },
                Action::Done => {
                    proof {
                        assert(skip_guards(started).len() == 0);
                        assert(!frame_live(started.last())) by {
                            if frame_live(started.last()) {
                                assert(skip_guards(started) == started);
                            }
                        }
                        assert(self.chunks@[kcur]@.len() == 0);
                        assert(first_live_chunk(self.chunks@, kcur) == first_live_chunk(
                            self.chunks@,
                            kcur + 1,
                        ));
                    }
                },
            }
        }
    }

    /// Feeds a probe response to the running bisector, sharing the scan's
    /// ledger with it. A fatal error halts the scan; the findings gathered
    /// so far stay in the ledger.
    pub fn on_response(&mut self, resp: Response) -> (r: Result<(), ScanError>)
        requires
            awaiting(old(self).bis.wait),
        ensures
            scan_response_step(*old(self), resp, *final(self), r),
            final(self).cfg == old(self).cfg,
            final(self).chunks == old(self).chunks,
            final(self).next_chunk == old(self).next_chunk,
            final(self).halted == (old(self).halted || r is Err),
            old(self).ledger.found@.is_prefix_of(final(self).ledger.found@),
            old(self).ledger.diffs.deep_view().is_prefix_of(final(self).ledger.diffs.deep_view()),
            final(self).ledger.found@.len() + scan_budget(*final(self)) <= old(self).ledger.found@.len() + scan_budget(*old(self)),
            scan_transition(*old(self), *final(self)),
            (old(self).bis.wait matches Wait::Probe { .. } && response_clean(
                resp,
                old(self).cfg.baseline_code,
            )) ==> final(self).ledger == old(self).ledger && final(self).bis.pending@ == old(self).bis.pending@,
    {
        let r = self.bis.on_response(&self.cfg, &mut self.ledger, resp);
        if r.is_err() {
            self.halted = true;
        }
        r
    }

    /// Feeds a transport failure to the running bisector.
    pub fn on_failure(&mut self) -> (r: Result<(), ScanError>)
        requires
            awaiting(old(self).bis.wait),
        ensures
            final(self).cfg == old(self).cfg,
            final(self).chunks == old(self).chunks,
            final(self).next_chunk == old(self).next_chunk,
            final(self).halted == (old(self).halted || r is Err),
            old(self).ledger.found@.is_prefix_of(final(self).ledger.found@),
            old(self).ledger.diffs.deep_view().is_prefix_of(final(self).ledger.diffs.deep_view()),
            final(self).ledger.found@.len() + scan_budget(*final(self)) <= old(self).ledger.found@.len() + scan_budget(*old(self)),
            scan_transition(*old(self), *final(self)),
            scan_failure_step(*old(self), *final(self), r),
    {
        let r = self.bis.on_failure(&self.cfg, &mut self.ledger);
        if r.is_err() {
            self.halted = true;
        }
        r
    }

    /// Ends the scan and hands back what was learned: the accumulated noise
    /// diffs and the findings, including any gathered before a fatal error.
    pub fn finish(self) -> (r: (Vec<String>, Vec<FoundParameter>))
        ensures
            r.0 == self.ledger.diffs,
            r.1 == self.ledger.found,
    {
        (self.ledger.diffs, self.ledger.found)
    }
}

/// Appending a chunk adds its names to the total.
proof fn lemma_chunks_count_push(s: Seq<Vec<String>>, c: Vec<String>)
    ensures
        chunks_count_from(s.push(c), 0) == chunks_count_from(s, 0) + c@.len(),
    decreases s.len(),
{
    lemma_chunks_count_push_from(s, c, 0);
}

/// Appending a chunk adds its names to every suffix total.
proof fn lemma_chunks_count_push_from(s: Seq<Vec<String>>, c: Vec<String>, i: int)
    requires
        0 <= i <= s.len(),
    ensures
        chunks_count_from(s.push(c), i) == chunks_count_from(s, i) + c@.len(),
    decreases s.len() - i,
{
    if i == s.len() {
        assert(chunks_count_from(s.push(c), i) == s.push(c)[i]@.len() + chunks_count_from(
            s.push(c),
            i + 1,
        ));
        assert(s.push(c)[i] == c);
        assert(chunks_count_from(s.push(c), i + 1) == 0);
        assert(chunks_count_from(s, i) == 0);
    } else {
        assert(s.push(c)[i] == s[i]);
        lemma_chunks_count_push_from(s, c, i + 1);
    }
}

} // verus!
