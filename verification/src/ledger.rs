//! The scan's shared state: diffs known to be baseline noise, counters of
//! consecutive divergent status codes, and the list of findings. A driver
//! that probes chunks concurrently guards the ledger with a lock; every
//! operation here is a single short critical section.

use vstd::prelude::*;

use crate::data::FoundParameter;
use crate::names::{absorb_diffs_spec, contains_name, join_signature, joined_sig};

verus! {

/// The counter stored for status code `c`: the value at its first entry.
pub open spec fn code_count(s: Seq<(u16, usize)>, c: u16) -> Option<usize>
    decreases s.len(),
{
    if s.len() == 0 {
        None
    } else if s[0].0 == c {
        Some(s[0].1)
    } else {
        code_count(s.drop_first(), c)
    }
}

/// The names of the recorded findings, in recording order.
pub open spec fn found_names(s: Seq<FoundParameter>) -> Seq<Seq<char>> {
    s.map_values(|f: FoundParameter| f.name@)
}

/// Whether some finding already carries the same joined diff signature as
/// `sig`: the diff lists joined with `|`, as the scan's strict mode
/// compares findings.
pub open spec fn signature_found(s: Seq<FoundParameter>, sig: Seq<Seq<char>>) -> bool {
    exists|i: int|
        0 <= i < s.len() && joined_sig((#[trigger] s[i]).diffs.deep_view()) == joined_sig(sig)
}

/// Shared scan state.
pub struct Ledger {
    /// Diffs known to be baseline-stable noise, membership-tested.
    pub diffs: Vec<String>,
    /// For each status code, how many consecutive probes diverged to it.
    pub codes: Vec<(u16, usize)>,
    /// The findings, append-only.
    pub found: Vec<FoundParameter>,
}

impl Ledger {
    /// A fresh ledger that already knows the scan's starting diffs.
    pub fn new(initial_diffs: Vec<String>) -> (r: Ledger)
        ensures
            r.diffs == initial_diffs,
            r.codes@.len() == 0,
            r.found@.len() == 0,
    {
        Ledger { diffs: initial_diffs, codes: Vec::new(), found: Vec::new() }
    }

    /// Whether `d` is already known to be noise.
    pub fn knows_diff(&self, d: &String) -> (r: bool)
        ensures
            r == self.diffs.deep_view().contains(d@),
    {
        contains_name(&self.diffs, d)
    }

    /// Whether a finding for `n` was already recorded.
    pub fn name_found(&self, n: &String) -> (r: bool)
        ensures
            r == found_names(self.found@).contains(n@),
    {
        let mut i: usize = 0;
        while i < self.found.len()
            invariant
                i <= self.found@.len(),
                forall|j: int| 0 <= j < i ==> found_names(self.found@)[j] != n@,
            decreases self.found@.len() - i,
        {
            if self.found[i].name == *n {
                proof {
                    assert(found_names(self.found@)[i as int] == n@);
                }
                return true;
            }
            i += 1;
        }
        false
    }

    /// Whether a finding with the same joined diff signature as `sig` was
    /// recorded: two diff lists count as duplicates exactly when they join,
    /// `|`-separated, to the same string.
    pub fn has_signature(&self, sig: &Vec<String>) -> (r: bool)
        ensures
            r == signature_found(self.found@, sig.deep_view()),
    {
        let target = join_signature(sig);
        let mut i: usize = 0;
        while i < self.found.len()
            invariant
                i <= self.found@.len(),
                target@ == joined_sig(sig.deep_view()),
                forall|j: int|
                    0 <= j < i ==> joined_sig((#[trigger] self.found@[j]).diffs.deep_view())
                        != joined_sig(sig.deep_view()),
            decreases self.found@.len() - i,
        {
            let cand = join_signature(&self.found[i].diffs);
            if cand == target {
                proof {
                    assert(joined_sig(self.found@[i as int].diffs.deep_view()) == joined_sig(
                        sig.deep_view(),
                    ));
                }
                return true;
            }
            i += 1;
        }
        false
    }

    /// Appends a finding.
    pub fn push_found(&mut self, f: FoundParameter)
        ensures
            final(self).found@ == old(self).found@.push(f),
            final(self).diffs == old(self).diffs,
            final(self).codes == old(self).codes,
    {
        self.found.push(f);
    }

    /// Absorbs the diffs of a control response: each one not yet known is
    /// appended, being noise of the page rather than a signal.
    pub fn absorb_diffs(&mut self, resp: &Vec<String>)
        ensures
            final(self).diffs.deep_view() == absorb_diffs_spec(
                old(self).diffs.deep_view(),
                resp.deep_view(),
            ),
            old(self).diffs.deep_view().is_prefix_of(final(self).diffs.deep_view()),
            final(self).codes == old(self).codes,
            final(self).found == old(self).found,
    {
        let ghost goal = absorb_diffs_spec(old(self).diffs.deep_view(), resp.deep_view());
        proof {
            assert(resp.deep_view().skip(0) =~= resp.deep_view());
        }
        let mut i: usize = 0;
        while i < resp.len()
            invariant
                i <= resp@.len(),
                goal == absorb_diffs_spec(self.diffs.deep_view(), resp.deep_view().skip(i as int)),
                old(self).diffs.deep_view().is_prefix_of(self.diffs.deep_view()),
                self.codes == old(self).codes,
                self.found == old(self).found,
            decreases resp@.len() - i,
        {
            proof {
                assert(resp.deep_view().skip(i as int).first() == resp.deep_view()[i as int]);
                assert(resp.deep_view().skip(i as int).drop_first() =~= resp.deep_view().skip(
                    i as int + 1,
                ));
            }
            if !contains_name(&self.diffs, &resp[i]) {
                let ghost before = self.diffs.deep_view();
                let e = &resp[i];
                let c = String::clone(e);
                self.diffs.push(c);
                proof {
                    assert(self.diffs.deep_view() =~= before.push(resp.deep_view()[i as int]));
                    assert(old(self).diffs.deep_view() =~= self.diffs.deep_view().subrange(
                        0,
                        old(self).diffs.deep_view().len() as int,
                    ));
                }
            }
            i += 1;
        }
        proof {
            assert(resp.deep_view().skip(resp.deep_view().len() as int).len() == 0);
        }
    }

    /// Records one more consecutive divergence to status code `c` and
    /// returns the counter's previous value, or starts the counter at zero
    /// when `c` was never seen. The increment saturates rather than wrap.
    pub fn bump_code(&mut self, c: u16) -> (r: Option<usize>)
        ensures
            r == code_count(old(self).codes@, c),
            final(self).diffs == old(self).diffs,
            final(self).found == old(self).found,
            code_count(final(self).codes@, c) == Some(
                match r {
                    Some(p) => if p < usize::MAX { (p + 1) as usize } else { p },
                    None => 0usize,
                },
            ),
            forall|c2: u16| c2 != c ==> code_count(final(self).codes@, c2) == code_count(
                old(self).codes@,
                c2,
            ),
    {
        let r = self.lookup_code(c);
        let next: usize = match r {
            Some(p) => if p < usize::MAX {
                p + 1
            } else {
                p
            },
            None => 0,
        };
        self.set_code(c, next);
        r
    }

    /// Resets the counter of status code `c` to zero.
    pub fn reset_code(&mut self, c: u16)
        ensures
            final(self).diffs == old(self).diffs,
            final(self).found == old(self).found,
            code_count(final(self).codes@, c) == Some(0usize),
            forall|c2: u16| c2 != c ==> code_count(final(self).codes@, c2) == code_count(
                old(self).codes@,
                c2,
            ),
    {
        self.set_code(c, 0);
    }

    /// The counter of status code `c`, if one exists.
    pub fn lookup_code(&self, c: u16) -> (r: Option<usize>)
        ensures
            r == code_count(self.codes@, c),
    {
        proof {
            assert(self.codes@.skip(0) =~= self.codes@);
        }
        let mut i: usize = 0;
        while i < self.codes.len()
            invariant
                i <= self.codes@.len(),
                code_count(self.codes@, c) == code_count(self.codes@.skip(i as int), c),
            decreases self.codes@.len() - i,
        {
            proof {
                assert(self.codes@.skip(i as int)[0] == self.codes@[i as int]);
                assert(self.codes@.skip(i as int).drop_first() =~= self.codes@.skip(i as int + 1));
            }
            if self.codes[i].0 == c {
                return Some(self.codes[i].1);
            }
            i += 1;
        }
        proof {
            assert(self.codes@.skip(self.codes@.len() as int).len() == 0);
        }
        None
    }

    /// Sets the counter of status code `c` to `v`, creating it if needed.
    fn set_code(&mut self, c: u16, v: usize)
        ensures
            final(self).diffs == old(self).diffs,
            final(self).found == old(self).found,
            code_count(final(self).codes@, c) == Some(v),
            forall|c2: u16| c2 != c ==> code_count(final(self).codes@, c2) == code_count(
                old(self).codes@,
                c2,
            ),
    {
        let mut i: usize = 0;
        while i < self.codes.len()
            invariant
                i <= self.codes@.len(),
                forall|j: int| 0 <= j < i ==> (#[trigger] self.codes@[j]).0 != c,
                self.codes == old(self).codes,
                self.diffs == old(self).diffs,
                self.found == old(self).found,
            decreases self.codes@.len() - i,
        {
            if self.codes[i].0 == c {
                let ghost before = self.codes@;
                self.codes[i] = (c, v);
                proof {
                    lemma_code_count_update(before, i as int, c, v);
                }
                return;
            }
            i += 1;
        }
        let ghost before = self.codes@;
        self.codes.push((c, v));
        proof {
            lemma_code_count_append(before, c, v);
        }
    }
}

/// Updating the first entry of code `c` updates its counter and no other.
proof fn lemma_code_count_update(s: Seq<(u16, usize)>, i: int, c: u16, v: usize)
    requires
        0 <= i < s.len(),
        s[i].0 == c,
        forall|j: int| 0 <= j < i ==> (#[trigger] s[j]).0 != c,
    ensures
        code_count(s.update(i, (c, v)), c) == Some(v),
        forall|c2: u16| c2 != c ==> code_count(s.update(i, (c, v)), c2) == code_count(s, c2),
    decreases s.len(),
{
    let t = s.update(i, (c, v));
    if i == 0 {
        assert(t[0] == (c, v));
        assert forall|c2: u16| c2 != c implies code_count(t, c2) == code_count(s, c2) by {
            assert(t.drop_first() =~= s.drop_first());
            assert(code_count(t, c2) == code_count(t.drop_first(), c2));
            assert(code_count(s, c2) == code_count(s.drop_first(), c2));
        }
    } else {
        assert(s.drop_first()[i - 1] == s[i]);
        assert forall|j: int| 0 <= j < i - 1 implies (#[trigger] s.drop_first()[j]).0 != c by {
            assert(s.drop_first()[j] == s[j + 1]);
        }
        lemma_code_count_update(s.drop_first(), i - 1, c, v);
        assert(t.drop_first() =~= s.drop_first().update(i - 1, (c, v)));
        assert(t[0] == s[0]);
        assert(code_count(t, c) == code_count(t.drop_first(), c));
        assert forall|c2: u16| c2 != c implies code_count(t, c2) == code_count(s, c2) by {
            if s[0].0 == c2 {
                assert(code_count(t, c2) == Some(t[0].1));
                assert(code_count(s, c2) == Some(s[0].1));
            } else {
                assert(code_count(t, c2) == code_count(t.drop_first(), c2));
                assert(code_count(s, c2) == code_count(s.drop_first(), c2));
            }
        }
    }
}

/// Appending an entry for a code not yet present creates its counter and
/// touches no other.
proof fn lemma_code_count_append(s: Seq<(u16, usize)>, c: u16, v: usize)
    requires
        forall|j: int| 0 <= j < s.len() ==> (#[trigger] s[j]).0 != c,
    ensures
        code_count(s.push((c, v)), c) == Some(v),
        forall|c2: u16| c2 != c ==> code_count(s.push((c, v)), c2) == code_count(s, c2),
    decreases s.len(),
{
    let t = s.push((c, v));
    if s.len() == 0 {
        assert(t[0] == (c, v));
        assert forall|c2: u16| c2 != c implies code_count(t, c2) == code_count(s, c2) by {
            assert(t.drop_first() =~= Seq::<(u16, usize)>::empty());
            assert(code_count(t, c2) == code_count(t.drop_first(), c2));
            assert(code_count(t.drop_first(), c2) is None);
        }
    } else {
        assert forall|j: int| 0 <= j < s.drop_first().len() implies (#[trigger] s.drop_first()[j]).0
            != c by {
            assert(s.drop_first()[j] == s[j + 1]);
        }
        lemma_code_count_append(s.drop_first(), c, v);
        assert(t.drop_first() =~= s.drop_first().push((c, v)));
        assert(t[0] == s[0]);
        assert(code_count(t, c) == code_count(t.drop_first(), c));
        assert forall|c2: u16| c2 != c implies code_count(t, c2) == code_count(s, c2) by {
            if s[0].0 == c2 {
                assert(code_count(t, c2) == Some(t[0].1));
                assert(code_count(s, c2) == Some(s[0].1));
            } else {
                assert(code_count(t, c2) == code_count(t.drop_first(), c2));
                assert(code_count(s, c2) == code_count(s.drop_first(), c2));
            }
        }
    }
}

} // verus!
