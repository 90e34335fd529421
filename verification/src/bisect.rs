//! The chunk bisector: a binary-search engine that narrows a chunk of
//! candidate names to the ones responsible for a response change. Probing is
//! I/O, so the bisector is a state machine: `next` hands the driver the probe
//! to perform, `on_response` and `on_failure` feed the outcome back. All
//! writes to findings go through the ledger passed to each step, which a
//! concurrent driver may share between bisectors under a lock.

use vstd::prelude::*;

use crate::data::{FoundParameter, ReasonKind, Response, ScanConfig, ScanError, response_clean};
use crate::decimal::{code_transition, transition_seq};
use crate::ledger::{code_count, found_names, signature_found, Ledger};
use crate::names::{absorb_diffs_spec, clone_names, filter_fresh, find_name, fresh_diffs};

verus! {

/// One pending bisection call: a chunk of names at a recursion depth.
pub struct Frame {
    pub names: Vec<String>,
    pub depth: usize,
}

/// What the bisector waits for, if anything.
pub enum Wait {
    /// No probe outstanding; pending frames may be started.
    Idle,
    /// A real probe carrying `names` is in flight.
    Probe { names: Vec<String>, depth: usize },
    /// The real probe failed at the transport; a control probe of the same
    /// arity is in flight to tell a flake from a dead server.
    FailControl { names: Vec<String>, depth: usize },
    /// Too many consecutive divergent status codes: a control probe is in
    /// flight to decide whether the page itself became unstable.
    /// `response` is the divergent response being processed.
    Stability { names: Vec<String>, depth: usize, response: Response },
    /// `response` showed body diffs the ledger did not know (`fresh`);
    /// a random control probe is in flight to rule out page noise.
    Noise { names: Vec<String>, depth: usize, response: Response, fresh: Vec<String> },
    /// All frames processed, or a fatal error ended the bisection.
    Finished,
}

/// What a driver must do next.
pub enum Action {
    /// Send a probe carrying these candidate names.
    Probe { names: Vec<String> },
    /// Send a probe carrying `arity` freshly generated random names.
    RandomProbe { arity: usize },
    /// Nothing left to do.
    Done,
}

/// A bisection call worth starting: a non-empty chunk below the runaway
/// depth bound. Guarded calls return at once, with no probe and no ledger
/// change.
pub open spec fn frame_live(f: Frame) -> bool {
    f.names@.len() > 0 && f.depth <= 50
}

/// `s` with the guarded frames at the top removed.
pub open spec fn skip_guards(s: Seq<Frame>) -> Seq<Frame>
    decreases s.len(),
{
    if s.len() == 0 {
        s
    } else if frame_live(s.last()) {
        s
    } else {
        skip_guards(s.drop_last())
    }
}

/// Whether a probe is in flight.
pub open spec fn awaiting(w: Wait) -> bool {
    !(w is Idle || w is Finished)
}

/// How many candidate names the wait state holds.
pub open spec fn wait_count(w: Wait) -> nat {
    match w {
        Wait::Idle | Wait::Finished => 0,
        Wait::Probe { names, .. } => names@.len(),
        Wait::FailControl { names, .. } => names@.len(),
        Wait::Stability { names, .. } => names@.len(),
        Wait::Noise { names, .. } => names@.len(),
    }
}

/// How many candidate names the pending frames hold.
pub open spec fn frames_count(s: Seq<Frame>) -> nat
    decreases s.len(),
{
    if s.len() == 0 {
        0
    } else {
        frames_count(s.drop_last()) + s.last().names@.len()
    }
}

/// How many candidate names the bisector still holds in total. Every
/// recorded finding consumes at least one unit of this budget, which bounds
/// the number of findings by the dictionary size.
pub open spec fn budget(b: Bisector) -> nat {
    frames_count(b.pending@) + wait_count(b.wait)
}

/// The finding recorded when the differ reports a name echoed in the body.
/// A chunk of one name is demoted to `NotReflected`: the wire request also
/// carries a cache-buster, so the echo cannot be attributed unambiguously.
pub open spec fn reflected_finding(f: FoundParameter, n: Seq<char>, arity: nat, resp: Response) -> bool {
    &&& f.name@ == n
    &&& f.diffs@.len() == 0
    &&& f.status_code == resp.code
    &&& f.body_length == resp.body_length
    &&& f.reason == (if arity == 1 {
        ReasonKind::NotReflected
    } else {
        ReasonKind::Reflected
    })
}

/// The finding recorded when a lone name flips the status code.
pub open spec fn code_finding(f: FoundParameter, name: Seq<char>, baseline: u16, resp: Response) -> bool {
    &&& f.name@ == name
    &&& f.diffs.deep_view() == seq![transition_seq(baseline, resp.code)]
    &&& f.status_code == resp.code
    &&& f.body_length == resp.body_length
    &&& f.reason == ReasonKind::Code
}

/// The finding recorded when a lone name changes the body.
pub open spec fn text_finding(f: FoundParameter, name: Seq<char>, fresh: Seq<Seq<char>>, resp: Response) -> bool {
    &&& f.name@ == name
    &&& f.diffs.deep_view() == fresh
    &&& f.status_code == resp.code
    &&& f.body_length == resp.body_length
    &&& f.reason == ReasonKind::Text
}

/// Whether some name of `s` reads `x`.
pub open spec fn has_name(s: Seq<String>, x: Seq<char>) -> bool {
    exists|i: int| 0 <= i < s.len() && s[i]@ == x
}

/// The first position of `x` among the names of `s`.
pub open spec fn first_name_index(s: Seq<String>, x: Seq<char>) -> int
    decreases s.len(),
{
    if s.len() == 0 {
        0
    } else if s[0]@ == x {
        0
    } else {
        1 + first_name_index(s.drop_first(), x)
    }
}

/// A position that is first is the first position.
pub proof fn lemma_first_name_index(s: Seq<String>, x: Seq<char>, i: int)
    requires
        0 <= i < s.len(),
        s[i]@ == x,
        forall|j: int| 0 <= j < i ==> s[j]@ != x,
    ensures
        first_name_index(s, x) == i,
    decreases s.len(),
{
    if i > 0 {
        assert(s.drop_first()[i - 1] == s[i]);
        assert forall|j: int| 0 <= j < i - 1 implies s.drop_first()[j]@ != x by {
            assert(s.drop_first()[j] == s[j + 1]);
        }
        lemma_first_name_index(s.drop_first(), x, i - 1);
    }
}

/// The reflection sub-phase records a finding: the differ saw an echoed
/// name that is in the chunk and not yet recorded.
pub open spec fn reflection_hit(
    cfg: ScanConfig,
    found0: Seq<FoundParameter>,
    names0: Seq<String>,
    resp: Response,
) -> bool {
    &&& cfg.stable_reflections
    &&& resp.reflected is Some
    &&& !found_names(found0).contains((resp.reflected->Some_0)@)
    &&& has_name(names0, (resp.reflected->Some_0)@)
}

/// The chunk after the reflection sub-phase: the recorded name, if any,
/// is removed (first occurrence).
pub open spec fn chunk_after_reflection(
    cfg: ScanConfig,
    found0: Seq<FoundParameter>,
    names0: Seq<String>,
    resp: Response,
) -> Seq<String> {
    if reflection_hit(cfg, found0, names0, resp) {
        names0.remove(first_name_index(names0, (resp.reflected->Some_0)@))
    } else {
        names0
    }
}

/// How `split` queues a chunk at the given call depth: dropped past the
/// depth bound, queued whole when it cannot be halved, else queued as two
/// halves with the left half on top (to run first).
pub open spec fn split_effect(p0: Seq<Frame>, p1: Seq<Frame>, names: Seq<String>, depth: int) -> bool {
    if depth > 50 {
        p1 == p0
    } else if names.len() <= 1 {
        &&& p1.len() == p0.len() + 1
        &&& p1.last().names@ == names
        &&& p1.last().depth == depth + 1
        &&& p1.drop_last() == p0
    } else {
        &&& p1.len() == p0.len() + 2
        &&& p1.last().names@ == names.subrange(0, names.len() as int / 2)
        &&& p1.last().depth == depth + 1
        &&& p1[p1.len() - 2].names@ == names.subrange(names.len() as int / 2, names.len() as int)
        &&& p1[p1.len() - 2].depth == depth + 1
        &&& p1.drop_last().drop_last() == p0
    }
}

/// The code counters after one more divergence to `c`: its counter starts
/// at zero or increments (saturating); no other counter moves.
pub open spec fn bumped_codes(c0: Seq<(u16, usize)>, c1: Seq<(u16, usize)>, c: u16) -> bool {
    &&& code_count(c1, c) == Some(
        match code_count(c0, c) {
            Some(p) => if p < usize::MAX {
                (p + 1) as usize
            } else {
                p
            },
            None => 0usize,
        },
    )
    &&& forall|c2: u16| c2 != c ==> code_count(c1, c2) == code_count(c0, c2)
}

/// The code sub-phase conclusion once the counters are settled: a lone
/// name is recorded with reason `Code`, a larger chunk is split.
pub open spec fn code_resolution(
    cfg: ScanConfig,
    found0: Seq<FoundParameter>,
    p0: Seq<Frame>,
    names: Seq<String>,
    depth: int,
    resp: Response,
    found1: Seq<FoundParameter>,
    b1: Bisector,
) -> bool {
    &&& b1.wait is Idle
    &&& if names.len() == 1 {
        &&& found1.len() == found0.len() + 1
        &&& found0.is_prefix_of(found1)
        &&& code_finding(found1.last(), names[0]@, cfg.baseline_code, resp)
        &&& b1.pending@ == p0
    } else {
        &&& found1 == found0
        &&& split_effect(p0, b1.pending@, names, depth + 1)
    }
}

/// One full step of the bisector on the probe response for a chunk:
/// reflection sub-phase, then code sub-phase (possibly deferring to a
/// stability control probe), then body sub-phase (possibly deferring to a
/// noise control probe).
pub open spec fn probe_step(
    cfg: ScanConfig,
    lg0: Ledger,
    p0: Seq<Frame>,
    names0: Seq<String>,
    depth: int,
    resp: Response,
    lg1: Ledger,
    b1: Bisector,
) -> bool {
    let hit = reflection_hit(cfg, lg0.found@, names0, resp);
    let names1 = chunk_after_reflection(cfg, lg0.found@, names0, resp);
    let found_mid = if hit {
        lg0.found@.push(lg1.found@[lg0.found@.len() as int])
    } else {
        lg0.found@
    };
    &&& lg1.diffs == lg0.diffs
    &&& (hit ==> lg1.found@.len() > lg0.found@.len() && reflected_finding(
        lg1.found@[lg0.found@.len() as int],
        (resp.reflected->Some_0)@,
        names0.len(),
        resp,
    ))
    &&& if cfg.stable_reflections && resp.repeat {
        &&& lg1.found@ == found_mid
        &&& lg1.codes == lg0.codes
        &&& b1.wait is Idle
        &&& split_effect(p0, b1.pending@, names1, depth + 1)
    } else if cfg.stable_reflections && cfg.reflected_only {
        &&& lg1.found@ == found_mid
        &&& lg1.codes == lg0.codes
        &&& b1.wait is Idle
        &&& b1.pending@ == p0
    } else if resp.code != cfg.baseline_code {
        let prev = code_count(lg0.codes@, resp.code);
        &&& bumped_codes(lg0.codes@, lg1.codes@, resp.code)
        &&& if prev is Some && prev->Some_0 >= 50 {
            &&& lg1.found@ == found_mid
            &&& b1.pending@ == p0
            &&& (b1.wait matches Wait::Stability { names: wn, depth: wd, response: wr } && wn@
                == names1 && wd == depth && wr == resp)
        } else {
            code_resolution(cfg, found_mid, p0, names1, depth, resp, lg1.found@, b1)
        }
    } else if cfg.stable_body {
        let fresh = fresh_diffs(resp.diffs.deep_view(), lg0.diffs.deep_view());
        &&& lg1.codes == lg0.codes
        &&& lg1.found@ == found_mid
        &&& if fresh.len() == 0 || (cfg.strict && signature_found(found_mid, fresh)) {
            &&& b1.wait is Idle
            &&& b1.pending@ == p0
        } else {
            &&& b1.pending@ == p0
            &&& (b1.wait matches Wait::Noise { names: wn, depth: wd, response: wr, fresh: wf }
                && wn@ == names1 && wd == depth && wr == resp && wf.deep_view() == fresh)
        }
    } else {
        &&& lg1.codes == lg0.codes
        &&& lg1.found@ == found_mid
        &&& b1.wait is Idle
        &&& b1.pending@ == p0
    }
}

/// One step on the outcome of a stability control probe: a still-divergent
/// control code is fatal; a matching one resets the counter and resolves
/// the chunk as a code difference.
pub open spec fn stability_step(
    cfg: ScanConfig,
    lg0: Ledger,
    p0: Seq<Frame>,
    names: Seq<String>,
    depth: int,
    response: Response,
    control_code: u16,
    lg1: Ledger,
    b1: Bisector,
    r: Result<(), ScanError>,
) -> bool {
    &&& lg1.diffs == lg0.diffs
    &&& if control_code != cfg.baseline_code {
        &&& lg1 == lg0
        &&& b1.pending@ == p0
        &&& b1.wait is Finished
        &&& (r matches Err(e) && e matches ScanError::PageUnstableCode(u) && u@ == cfg.url@)
    } else {
        &&& r is Ok
        &&& code_count(lg1.codes@, response.code) == Some(0usize)
        &&& (forall|c2: u16|
            c2 != response.code ==> code_count(lg1.codes@, c2) == code_count(lg0.codes@, c2))
        &&& code_resolution(cfg, lg0.found@, p0, names, depth, response, lg1.found@, b1)
    }
}

/// One step on the outcome of a noise control probe: the control probe's
/// diffs are absorbed as noise, then a surviving fresh diff records the
/// lone name with reason `Text` (unless deduplicated) or splits the chunk.
pub open spec fn noise_step(
    cfg: ScanConfig,
    lg0: Ledger,
    p0: Seq<Frame>,
    names: Seq<String>,
    depth: int,
    response: Response,
    fresh: Seq<Seq<char>>,
    control: Response,
    lg1: Ledger,
    b1: Bisector,
) -> bool {
    let diffs1 = absorb_diffs_spec(lg0.diffs.deep_view(), control.diffs.deep_view());
    &&& lg1.diffs.deep_view() == diffs1
    &&& lg1.codes == lg0.codes
    &&& {
        let survives = exists|i: int| 0 <= i < fresh.len() && !diffs1.contains(#[trigger] fresh[i]);
        if !survives {
            &&& lg1.found == lg0.found
            &&& b1.wait is Idle
            &&& b1.pending@ == p0
        } else if names.len() == 1 && !found_names(lg0.found@).contains(names[0]@) {
            if cfg.strict && signature_found(lg0.found@, fresh) {
                &&& lg1.found == lg0.found
                &&& b1.wait is Idle
                &&& b1.pending@ == p0
            } else {
                &&& lg1.found@.len() == lg0.found@.len() + 1
                &&& lg0.found@.is_prefix_of(lg1.found@)
                &&& text_finding(lg1.found@.last(), names[0]@, fresh, response)
                &&& b1.wait is Idle
                &&& b1.pending@ == p0
            }
        } else {
            &&& lg1.found == lg0.found
            &&& b1.wait is Idle
            &&& split_effect(p0, b1.pending@, names, depth + 1)
        }
    }
}

/// The state machine for one chunk of the dictionary.
pub struct Bisector {
    /// Bisection calls not yet started, topmost first to run.
    pub pending: Vec<Frame>,
    /// The probe in flight, if any.
    pub wait: Wait,
}

/// Budget never grows when frames are dropped by the guards.
proof fn lemma_skip_guards_count(s: Seq<Frame>)
    ensures
        frames_count(skip_guards(s)) <= frames_count(s),
    decreases s.len(),
{
    if s.len() > 0 && !frame_live(s.last()) {
        lemma_skip_guards_count(s.drop_last());
    }
}

impl Bisector {
    /// A bisector for one chunk, to be driven from recursion depth zero.
    pub fn new(chunk: Vec<String>) -> (r: Bisector)
        ensures
            r.pending@.len() == 1,
            r.pending@[0].names == chunk,
            r.pending@[0].depth == 0,
            r.wait is Idle,
            budget(r) == chunk@.len(),
    {
        let mut pending: Vec<Frame> = Vec::new();
        pending.push(Frame { names: chunk, depth: 0 });
        let b = Bisector { pending, wait: Wait::Idle };
        proof {
            assert(b.pending@.drop_last() =~= Seq::<Frame>::empty());
            assert(frames_count(b.pending@.drop_last()) == 0);
            assert(budget(b) == b.pending@.last().names@.len());
        }
        b
    }

    /// A bisector whose first call starts at a given recursion depth.
    pub fn new_at_depth(chunk: Vec<String>, depth: usize) -> (r: Bisector)
        ensures
            r.pending@.len() == 1,
            r.pending@[0].names == chunk,
            r.pending@[0].depth == depth,
            r.wait is Idle,
            budget(r) == chunk@.len(),
    {
        let mut pending: Vec<Frame> = Vec::new();
        pending.push(Frame { names: chunk, depth });
        let b = Bisector { pending, wait: Wait::Idle };
        proof {
            assert(b.pending@.drop_last() =~= Seq::<Frame>::empty());
            assert(frames_count(b.pending@.drop_last()) == 0);
            assert(budget(b) == b.pending@.last().names@.len());
        }
        b
    }

    /// Hands the driver its next action. Guarded frames (empty chunks, or
    /// depth beyond 50) are dropped without probing and without any ledger
    /// access; while a probe is in flight the same action is handed out
    /// again.
    pub fn next(&mut self) -> (a: Action)
        ensures
            budget(*final(self)) <= budget(*old(self)),
            awaiting(old(self).wait) ==> *final(self) == *old(self),
            old(self).wait is Finished ==> *final(self) == *old(self) && a is Done,
            old(self).wait is Idle ==> {
                let live = skip_guards(old(self).pending@);
                if live.len() == 0 {
                    &&& final(self).wait is Finished
                    &&& final(self).pending@.len() == 0
                    &&& a is Done
                } else {
                    &&& final(self).pending@ == live.drop_last()
                    &&& final(self).wait == (Wait::Probe {
                        names: live.last().names,
                        depth: live.last().depth,
                    })
                    &&& a matches Action::Probe { names } && names@ == live.last().names@
                }
            },
            (final(self).wait matches Wait::Probe { names, .. } ==> a matches Action::Probe {
                names: an,
            } && an@ == names@),
            (awaiting(old(self).wait) && !(old(self).wait is Probe)) ==> (a matches
                Action::RandomProbe { arity } && arity == wait_count(old(self).wait)),
    {
        match &self.wait {
            Wait::Idle => {},
            Wait::Probe { names, .. } => {
                return Action::Probe { names: clone_names(names) };
            },
            Wait::FailControl { names, .. } => {
                return Action::RandomProbe { arity: names.len() };
            },
            Wait::Stability { names, .. } => {
                return Action::RandomProbe { arity: names.len() };
            },
            Wait::Noise { names, .. } => {
                return Action::RandomProbe { arity: names.len() };
            },
            Wait::Finished => {
                return Action::Done;
            },
        }
        loop
            invariant
                self.wait is Idle,
                old(self).wait is Idle,
                skip_guards(self.pending@) == skip_guards(old(self).pending@),
                frames_count(self.pending@) <= frames_count(old(self).pending@),
            decreases self.pending@.len(),
        {
            let ghost before = self.pending@;
            match self.pending.pop() {
                None => {
                    proof {
                        assert(skip_guards(before).len() == 0);
                    }
                    self.wait = Wait::Finished;
                    return Action::Done;
                },
                Some(f) => {
                    if f.names.len() > 0 && f.depth <= 50 {
                        proof {
                            assert(frame_live(before.last()));
                            assert(skip_guards(before) == before);
                        }
                        let ns = clone_names(&f.names);
                        self.wait = Wait::Probe { names: f.names, depth: f.depth };
                        return Action::Probe { names: ns };
                    }
                    proof {
                        assert(!frame_live(before.last()));
                        assert(skip_guards(before) == skip_guards(before.drop_last()));
                    }
                },
            }
        }
    }

    /// Queues the two halves of a chunk for bisection, left half to run
    /// first; a chunk of one name (or none) is queued whole. A call past the
    /// depth bound queues nothing.
    pub fn split(&mut self, names: Vec<String>, depth: usize)
        ensures
            final(self).wait == old(self).wait,
            frames_count(final(self).pending@) <= frames_count(old(self).pending@) + names@.len(),
            split_effect(old(self).pending@, final(self).pending@, names@, depth as int),
    {
        if depth > 50 {
            return;
        }
        if names.len() <= 1 {
            let ghost before = self.pending@;
            self.pending.push(Frame { names, depth: depth + 1 });
            proof {
                assert(self.pending@.drop_last() =~= before);
            }
            return;
        }
        let mut left = names;
        let right = left.split_off(left.len() / 2);
        let ghost before = self.pending@;
        self.pending.push(Frame { names: right, depth: depth + 1 });
        self.pending.push(Frame { names: left, depth: depth + 1 });
        proof {
            let rf = Frame { names: right, depth: (depth + 1) as usize };
            assert(self.pending@.drop_last() =~= before.push(rf));
            assert(before.push(rf).drop_last() =~= before);
            assert(self.pending@.drop_last().drop_last() =~= before);
            assert(self.pending@[self.pending@.len() - 2] == self.pending@.drop_last().last());
            assert(frames_count(before.push(rf)) == frames_count(before) + rf.names@.len());
            assert(frames_count(self.pending@) == frames_count(before.push(rf))
                + self.pending@.last().names@.len());
        }
    }

    /// Processes the response of a real probe for the chunk `names`:
    /// reflection, code and body sub-phases, exactly as `probe_step` states.
    #[verifier::rlimit(60)]
    pub fn handle_probe(
        &mut self,
        cfg: &ScanConfig,
        lg: &mut Ledger,
        names: Vec<String>,
        depth: usize,
        resp: Response,
    )
        requires
            old(self).wait is Idle,
        ensures
            probe_step(
                *cfg,
                *old(lg),
                old(self).pending@,
                names@,
                depth as int,
                resp,
                *final(lg),
                *final(self),
            ),
            response_clean(resp, cfg.baseline_code) ==> *final(lg) == *old(lg) && final(self).wait
                is Idle && final(self).pending@ == old(self).pending@,
            old(lg).found@.is_prefix_of(final(lg).found@),
            final(lg).diffs == old(lg).diffs,
            final(lg).found@.len() + budget(*final(self)) <= old(lg).found@.len() + budget(
                *old(self),
            ) + names@.len(),
    {
        let ghost names0 = names@;
        let mut names = names;
        let ghost hit = reflection_hit(*cfg, old(lg).found@, names0, resp);
        if cfg.stable_reflections {
            match &resp.reflected {
                Some(n) => {
                    if !lg.name_found(n) {
                        match find_name(&names, n) {
                            Some(pos) => {
                                proof {
                                    assert(names0[pos as int]@ == n@);
                                    assert forall|j: int| 0 <= j < pos implies names0[j]@ != n@ by {
                                        assert(names.deep_view()[j] == names0[j]@);
                                        assert(names.deep_view()[j] != n@);
                                    }
                                    lemma_first_name_index(names0, n@, pos as int);
                                    assert(has_name(names0, n@));
                                    assert(hit);
                                }
                                let kind = if names.len() == 1 {
                                    ReasonKind::NotReflected
                                } else {
                                    ReasonKind::Reflected
                                };
                                lg.push_found(
                                    FoundParameter {
                                        name: String::clone(n),
                                        diffs: Vec::new(),
                                        status_code: resp.code,
                                        body_length: resp.body_length,
                                        reason: kind,
                                    },
                                );
                                names.remove(pos);
                            },
                            None => {
                                proof {
                                    if has_name(names0, n@) {
                                        let i = choose|i: int|
                                            0 <= i < names0.len() && names0[i]@ == n@;
                                        assert(names.deep_view()[i] == n@);
                                        assert(names.deep_view().contains(n@));
                                    }
                                    assert(!hit);
                                }
                            },
                        }
                    }
                },
                None => {},
            }
            proof {
                assert(names@ == chunk_after_reflection(*cfg, old(lg).found@, names0, resp));
            }
            if resp.repeat {
                let d1 = if depth > 50 {
                    depth
                } else {
                    depth + 1
                };
                self.split(names, d1);
                return;
            }
            if cfg.reflected_only {
                return;
            }
        }
        proof {
            assert(names@ == chunk_after_reflection(*cfg, old(lg).found@, names0, resp));
        }
        if resp.code != cfg.baseline_code {
            let prev = lg.bump_code(resp.code);
            let mut defer = false;
            match prev {
                Some(p) => {
                    if p >= 50 {
                        defer = true;
                    }
                },
                None => {},
            }
            if defer {
                self.wait = Wait::Stability { names, depth, response: resp };
                return;
            }
            self.finish_code(cfg, lg, names, depth, resp);
            return;
        }
        if cfg.stable_body {
            let fresh = filter_fresh(&resp.diffs, &lg.diffs);
            if fresh.len() > 0 {
                if cfg.strict && lg.has_signature(&fresh) {
                    return;
                }
                self.wait = Wait::Noise { names, depth, response: resp, fresh };
                return;
            }
        }
    }

    /// Resolves a code difference once the counters are settled: records the
    /// lone name with reason `Code`, or splits a larger chunk.
    pub fn finish_code(
        &mut self,
        cfg: &ScanConfig,
        lg: &mut Ledger,
        names: Vec<String>,
        depth: usize,
        resp: Response,
    )
        requires
            old(self).wait is Idle,
        ensures
            code_resolution(
                *cfg,
                old(lg).found@,
                old(self).pending@,
                names@,
                depth as int,
                resp,
                final(lg).found@,
                *final(self),
            ),
            final(lg).diffs == old(lg).diffs,
            final(lg).codes == old(lg).codes,
            old(lg).found@.is_prefix_of(final(lg).found@),
            final(lg).found@.len() + budget(*final(self)) <= old(lg).found@.len() + budget(
                *old(self),
            ) + names@.len(),
    {
        if names.len() == 1 {
            let t = code_transition(cfg.baseline_code, resp.code);
            let mut diffs: Vec<String> = Vec::new();
            diffs.push(t);
            proof {
                assert(diffs.deep_view() =~= seq![transition_seq(cfg.baseline_code, resp.code)]);
            }
            let name = String::clone(&names[0]);
            lg.push_found(
                FoundParameter {
                    name,
                    diffs,
                    status_code: resp.code,
                    body_length: resp.body_length,
                    reason: ReasonKind::Code,
                },
            );
        } else {
            let d1 = if depth > 50 {
                depth
            } else {
                depth + 1
            };
            self.split(names, d1);
        }
    }

    /// Processes the outcome of a stability control probe: a control code
    /// still diverging from the baseline is fatal for the whole scan.
    pub fn handle_stability(
        &mut self,
        cfg: &ScanConfig,
        lg: &mut Ledger,
        names: Vec<String>,
        depth: usize,
        response: Response,
        control_code: u16,
    ) -> (r: Result<(), ScanError>)
        requires
            old(self).wait is Idle,
        ensures
            stability_step(
                *cfg,
                *old(lg),
                old(self).pending@,
                names@,
                depth as int,
                response,
                control_code,
                *final(lg),
                *final(self),
                r,
            ),
            old(lg).found@.is_prefix_of(final(lg).found@),
            final(lg).diffs == old(lg).diffs,
            final(lg).found@.len() + budget(*final(self)) <= old(lg).found@.len() + budget(
                *old(self),
            ) + names@.len(),
    {
        if control_code != cfg.baseline_code {
            self.wait = Wait::Finished;
            return Err(ScanError::PageUnstableCode(String::clone(&cfg.url)));
        }
        lg.reset_code(response.code);
        self.finish_code(cfg, lg, names, depth, response);
        Ok(())
    }

    /// Processes the outcome of a noise control probe: absorbs its diffs as
    /// page noise, then records or splits if a fresh diff survives.
    pub fn handle_noise(
        &mut self,
        cfg: &ScanConfig,
        lg: &mut Ledger,
        names: Vec<String>,
        depth: usize,
        response: Response,
        fresh: Vec<String>,
        control: Response,
    )
        requires
            old(self).wait is Idle,
        ensures
            noise_step(
                *cfg,
                *old(lg),
                old(self).pending@,
                names@,
                depth as int,
                response,
                fresh.deep_view(),
                control,
                *final(lg),
                *final(self),
            ),
            old(lg).found@.is_prefix_of(final(lg).found@),
            old(lg).diffs.deep_view().is_prefix_of(final(lg).diffs.deep_view()),
            final(lg).found@.len() + budget(*final(self)) <= old(lg).found@.len() + budget(
                *old(self),
            ) + names@.len(),
    {
        lg.absorb_diffs(&control.diffs);
        let ghost diffs1 = lg.diffs.deep_view();
        let mut i: usize = 0;
        while i < fresh.len()
            invariant
                i <= fresh@.len(),
                forall|j: int| 0 <= j < i ==> diffs1.contains(#[trigger] fresh.deep_view()[j]),
                diffs1 == absorb_diffs_spec(
                    old(lg).diffs.deep_view(),
                    control.diffs.deep_view(),
                ),
                lg.diffs.deep_view() == diffs1,
                old(lg).diffs.deep_view().is_prefix_of(lg.diffs.deep_view()),
                lg.codes == old(lg).codes,
                lg.found == old(lg).found,
                self == old(self),
                old(self).wait is Idle,
            decreases fresh@.len() - i,
        {
            if !lg.knows_diff(&fresh[i]) {
                proof {
                    assert(!diffs1.contains(fresh.deep_view()[i as int]));
                    assert(exists|k: int|
                        0 <= k < fresh.deep_view().len() && !diffs1.contains(
                            #[trigger] fresh.deep_view()[k],
                        ));
                }
                if names.len() == 1 && !lg.name_found(&names[0]) {
                    if cfg.strict && lg.has_signature(&fresh) {
                        return;
                    }
                    let ghost found0 = lg.found@;
                    let name = String::clone(&names[0]);
                    lg.push_found(
                        FoundParameter {
                            name,
                            diffs: fresh,
                            status_code: response.code,
                            body_length: response.body_length,
                            reason: ReasonKind::Text,
                        },
                    );
                    proof {
                        assert(found0 =~= lg.found@.subrange(0, found0.len() as int));
                    }
                    return;
                }
                let d1 = if depth > 50 {
                    depth
                } else {
                    depth + 1
                };
                self.split(names, d1);
                return;
            }
            i += 1;
        }
    }

    /// Feeds the outcome of the probe the driver was asked for back into
    /// the machine. A response to a fail-control probe stands in for the
    /// failed probe as an empty response: the flake is treated as carrying
    /// no signal.
    pub fn on_response(&mut self, cfg: &ScanConfig, lg: &mut Ledger, resp: Response) -> (r: Result<
        (),
        ScanError,
    >)
        requires
            awaiting(old(self).wait),
        ensures
            (match old(self).wait {
                Wait::Probe { names, depth } => r is Ok && probe_step(
                    *cfg,
                    *old(lg),
                    old(self).pending@,
                    names@,
                    depth as int,
                    resp,
                    *final(lg),
                    *final(self),
                ),
                Wait::FailControl { .. } => r is Ok && *final(lg) == *old(lg) && final(self).wait
                    is Idle && final(self).pending@ == old(self).pending@,
                Wait::Stability { names, depth, response } => stability_step(
                    *cfg,
                    *old(lg),
                    old(self).pending@,
                    names@,
                    depth as int,
                    response,
                    resp.code,
                    *final(lg),
                    *final(self),
                    r,
                ),
                Wait::Noise { names, depth, response, fresh } => r is Ok && noise_step(
                    *cfg,
                    *old(lg),
                    old(self).pending@,
                    names@,
                    depth as int,
                    response,
                    fresh.deep_view(),
                    resp,
                    *final(lg),
                    *final(self),
                ),
                _ => true,
            }),
            (old(self).wait matches Wait::Probe { .. } && response_clean(resp, cfg.baseline_code))
                ==> *final(lg) == *old(lg) && final(self).wait is Idle && final(self).pending@
                == old(self).pending@,
            old(lg).found@.is_prefix_of(final(lg).found@),
            old(lg).diffs.deep_view().is_prefix_of(final(lg).diffs.deep_view()),
            final(lg).found@.len() + budget(*final(self)) <= old(lg).found@.len() + budget(
                *old(self),
            ),
    {
        let mut w = Wait::Idle;
        core::mem::swap(&mut self.wait, &mut w);
        match w {
            Wait::Probe { names, depth } => {
                self.handle_probe(cfg, lg, names, depth, resp);
                Ok(())
            },
            Wait::FailControl { names, depth } => {
                let e = Response::empty(cfg.baseline_code);
                self.handle_probe(cfg, lg, names, depth, e);
                Ok(())
            },
            Wait::Stability { names, depth, response } => self.handle_stability(
                cfg,
                lg,
                names,
                depth,
                response,
                resp.code,
            ),
            Wait::Noise { names, depth, response, fresh } => {
                self.handle_noise(cfg, lg, names, depth, response, fresh, resp);
                Ok(())
            },
            Wait::Idle | Wait::Finished => Ok(()),
        }
    }

    /// Feeds a transport failure back into the machine. A failed real probe
    /// leads to a fail-control probe; a failed fail-control probe means the
    /// server is unreachable; a failed stability control reads as status
    /// code zero; a failed noise control aborts the branch.
    pub fn on_failure(&mut self, cfg: &ScanConfig, lg: &mut Ledger) -> (r: Result<(), ScanError>)
        requires
            awaiting(old(self).wait),
        ensures
            (match old(self).wait {
                Wait::Probe { names, depth } => r is Ok && *final(lg) == *old(lg) && final(self).pending@ == old(self).pending@ && final(self).wait == (Wait::FailControl {
                    names,
                    depth,
                }),
                Wait::FailControl { .. } => *final(lg) == *old(lg) && final(self).pending@ == old(self).pending@ && final(self).wait is Finished && (r matches Err(e) && e
                    is UnreachableServer),
                Wait::Stability { names, depth, response } => stability_step(
                    *cfg,
                    *old(lg),
                    old(self).pending@,
                    names@,
                    depth as int,
                    response,
                    0u16,
                    *final(lg),
                    *final(self),
                    r,
                ),
                Wait::Noise { .. } => *final(lg) == *old(lg) && final(self).pending@ == old(self).pending@ && final(self).wait is Finished && (r matches Err(e) && e
                    is ControlProbeFailed),
                _ => true,
            }),
            old(lg).found@.is_prefix_of(final(lg).found@),
            old(lg).diffs.deep_view().is_prefix_of(final(lg).diffs.deep_view()),
            final(lg).found@.len() + budget(*final(self)) <= old(lg).found@.len() + budget(
                *old(self),
            ),
    {
        let mut w = Wait::Idle;
        core::mem::swap(&mut self.wait, &mut w);
        match w {
            Wait::Probe { names, depth } => {
                self.wait = Wait::FailControl { names, depth };
                Ok(())
            },
            Wait::FailControl { .. } => {
                self.wait = Wait::Finished;
                Err(ScanError::UnreachableServer)
            },
            Wait::Stability { names, depth, response } => self.handle_stability(
                cfg,
                lg,
                names,
                depth,
                response,
                0u16,
            ),
            Wait::Noise { .. } => {
                self.wait = Wait::Finished;
                Err(ScanError::ControlProbeFailed)
            },
            Wait::Idle | Wait::Finished => Ok(()),
        }
    }
}

} // verus!
