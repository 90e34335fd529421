//! Engine-wide properties, stated over the step relations that the public
//! functions ensure.

use vstd::prelude::*;

use crate::bisect::{
    awaiting, chunk_after_reflection, first_name_index, frame_live, has_name, noise_step,
    probe_step, reflection_hit, skip_guards, split_effect, stability_step, Bisector, Frame, Wait,
};
use crate::data::{FoundParameter, ReasonKind, Response, ScanConfig, ScanError};
use crate::ledger::{code_count, found_names, Ledger};
use crate::scan::{
    chunks_flatten, first_live_chunk, scan_budget, scan_failure_step, scan_response_step,
    scan_transition, Scan,
};
use vstd::multiset::Multiset;
use vstd::seq_lib::lemma_multiset_commutative;

verus! {

/// The views of a chunk's names.
pub open spec fn name_views(s: Seq<String>) -> Seq<Seq<char>> {
    s.map_values(|x: String| x@)
}

/// The names of the chunk a wait state holds.
pub open spec fn wait_chunk(w: Wait) -> Seq<String> {
    match w {
        Wait::Idle | Wait::Finished => Seq::empty(),
        Wait::Probe { names, .. } => names@,
        Wait::FailControl { names, .. } => names@,
        Wait::Stability { names, .. } => names@,
        Wait::Noise { names, .. } => names@,
    }
}

/// The names of all chunks queued in the pending frames, concatenated.
pub open spec fn frames_names(s: Seq<Frame>) -> Seq<Seq<char>>
    decreases s.len(),
{
    if s.len() == 0 {
        Seq::empty()
    } else {
        frames_names(s.drop_last()) + s.last().names.deep_view()
    }
}

/// Every name the machine holds, with multiplicity: recorded findings,
/// queued chunks, and the chunk in hand.
pub open spec fn held_names(found: Seq<FoundParameter>, p: Seq<Frame>, chunk: Seq<String>) -> Multiset<
    Seq<char>,
> {
    found_names(found).to_multiset().add(frames_names(p).to_multiset()).add(
        name_views(chunk).to_multiset(),
    )
}

/// No name occurs twice.
pub open spec fn each_name_once(m: Multiset<Seq<char>>) -> bool {
    forall|x: Seq<char>| #[trigger] m.count(x) <= 1
}

proof fn lemma_name_views_deep(v: Vec<String>)
    ensures
        v.deep_view() == name_views(v@),
{
    assert(v.deep_view() =~= name_views(v@));
}

proof fn lemma_frames_names_push(p: Seq<Frame>, f: Frame)
    ensures
        frames_names(p.push(f)) == frames_names(p) + f.names.deep_view(),
{
    assert(p.push(f).drop_last() =~= p);
}

proof fn lemma_first_name_index_range(s: Seq<String>, x: Seq<char>)
    requires
        has_name(s, x),
    ensures
        0 <= first_name_index(s, x) < s.len(),
        s[first_name_index(s, x)]@ == x,
    decreases s.len(),
{
    if s.len() > 0 && s[0]@ != x {
        let i = choose|i: int| 0 <= i < s.len() && s[i]@ == x;
        assert(s.drop_first()[i - 1] == s[i]);
        assert(has_name(s.drop_first(), x));
        lemma_first_name_index_range(s.drop_first(), x);
        assert(s[first_name_index(s, x)] == s.drop_first()[first_name_index(s.drop_first(), x)]);
    }
}

/// A probe step never makes a name more plentiful: the count of each name
/// over the findings, the queued chunks and the chunk in hand can only
/// fall. A found name costs a chunk name, so a scan begun on a dictionary
/// of pairwise distinct names — each held exactly once — can never record
/// any name twice.
pub proof fn lemma_probe_step_name_budget(
    cfg: ScanConfig,
    lg0: Ledger,
    p0: Seq<Frame>,
    names0: Seq<String>,
    depth: int,
    resp: Response,
    lg1: Ledger,
    b1: Bisector,
)
    requires
        probe_step(cfg, lg0, p0, names0, depth, resp, lg1, b1),
    ensures
        forall|x: Seq<char>|
            #[trigger] held_names(lg1.found@, b1.pending@, wait_chunk(b1.wait)).count(x)
                <= held_names(lg0.found@, p0, names0).count(x),
{
    broadcast use vstd::seq_lib::group_to_multiset_ensures;

    let hit = reflection_hit(cfg, lg0.found@, names0, resp);
    let names1 = chunk_after_reflection(cfg, lg0.found@, names0, resp);
    let len0 = lg0.found@.len() as int;
    let found_mid = if hit {
        lg0.found@.push(lg1.found@[len0])
    } else {
        lg0.found@
    };

    // the mid state holds no name more often than the start state
    let m_mid = found_names(found_mid).to_multiset().add(name_views(names1).to_multiset());
    let m_start = found_names(lg0.found@).to_multiset().add(name_views(names0).to_multiset());
    assert forall|x: Seq<char>| #[trigger] m_mid.count(x) <= m_start.count(x) by {
        if hit {
            let n = (resp.reflected->Some_0)@;
            lemma_first_name_index_range(names0, n);
            let k = first_name_index(names0, n);
            assert(found_names(found_mid) =~= found_names(lg0.found@).push(n));
            assert(name_views(names1) =~= name_views(names0).remove(k));
            assert(name_views(names0)[k] == n);
            assert(found_names(found_mid).to_multiset() =~= found_names(
                lg0.found@,
            ).to_multiset().insert(n));
            assert(name_views(names1).to_multiset() =~= name_views(names0).to_multiset().remove(n));
            assert(name_views(names0).to_multiset().count(n) >= 1) by {
                assert(name_views(names0).contains(n));
            }
        } else {
            assert(found_mid == lg0.found@);
            assert(names1 == names0);
        }
    }

    // per branch, the final state holds no name more often than the mid state
    let m_final = held_names(lg1.found@, b1.pending@, wait_chunk(b1.wait));
    assert forall|x: Seq<char>| #[trigger] m_final.count(x) <= m_mid.count(x)
        + frames_names(p0).to_multiset().count(x) by {
        lemma_split_or_keep(cfg, lg0, p0, names0, depth, resp, lg1, b1, x);
    }
    assert forall|x: Seq<char>|
        #[trigger] m_final.count(x) <= held_names(lg0.found@, p0, names0).count(x) by {
        assert(m_mid.count(x) <= m_start.count(x));
    }
}

/// The per-branch accounting of `lemma_probe_step_name_budget`: relates the
/// final findings, pending frames and wait chunk to the mid state after the
/// reflection sub-phase.
proof fn lemma_split_or_keep(
    cfg: ScanConfig,
    lg0: Ledger,
    p0: Seq<Frame>,
    names0: Seq<String>,
    depth: int,
    resp: Response,
    lg1: Ledger,
    b1: Bisector,
    x: Seq<char>,
)
    requires
        probe_step(cfg, lg0, p0, names0, depth, resp, lg1, b1),
    ensures
        ({
            let hit = reflection_hit(cfg, lg0.found@, names0, resp);
            let names1 = chunk_after_reflection(cfg, lg0.found@, names0, resp);
            let found_mid = if hit {
                lg0.found@.push(lg1.found@[lg0.found@.len() as int])
            } else {
                lg0.found@
            };
            held_names(lg1.found@, b1.pending@, wait_chunk(b1.wait)).count(x) <= found_names(
                found_mid,
            ).to_multiset().add(name_views(names1).to_multiset()).count(x) + frames_names(
                p0,
            ).to_multiset().count(x)
        }),
{
    broadcast use vstd::seq_lib::group_to_multiset_ensures;

    let hit = reflection_hit(cfg, lg0.found@, names0, resp);
    let names1 = chunk_after_reflection(cfg, lg0.found@, names0, resp);
    let found_mid = if hit {
        lg0.found@.push(lg1.found@[lg0.found@.len() as int])
    } else {
        lg0.found@
    };
    let went_split = (cfg.stable_reflections && resp.repeat) || (!(cfg.stable_reflections
        && cfg.reflected_only) && names1.len() != 1 && (resp.code != cfg.baseline_code
        && !(code_count(lg0.codes@, resp.code) is Some && code_count(
        lg0.codes@,
        resp.code,
    )->Some_0 >= 50)));
    if went_split {
        assert(split_effect(p0, b1.pending@, names1, depth + 1));
        lemma_split_names_bound(p0, b1.pending@, names1, depth + 1, x);
        assert(lg1.found@ == found_mid);
        assert(wait_chunk(b1.wait) =~= Seq::<String>::empty());
        assert(name_views(wait_chunk(b1.wait)).to_multiset() =~= Multiset::<Seq<char>>::empty());
    } else if b1.wait is Stability || b1.wait is Noise {
        assert(b1.pending@ == p0);
        assert(lg1.found@ == found_mid);
        assert(name_views(wait_chunk(b1.wait)) == name_views(names1));
    } else if lg1.found@.len() > found_mid.len() {
        // a code finding for the lone remaining name
        assert(lg1.found@ == found_mid.push(lg1.found@.last()));
        assert(names1.len() == 1);
        assert(lg1.found@.last().name@ == names1[0]@);
        assert(found_names(lg1.found@) =~= found_names(found_mid).push(names1[0]@));
        assert(found_names(lg1.found@).to_multiset() =~= found_names(
            found_mid,
        ).to_multiset().insert(names1[0]@));
        assert(name_views(names1).to_multiset().count(names1[0]@) >= 1) by {
            assert(name_views(names1)[0] == names1[0]@);
            assert(name_views(names1).contains(names1[0]@));
        }
        assert(b1.pending@ == p0);
        assert(wait_chunk(b1.wait) =~= Seq::<String>::empty());
        assert(name_views(wait_chunk(b1.wait)).to_multiset() =~= Multiset::<Seq<char>>::empty());
    } else {
        assert(lg1.found@ == found_mid);
        assert(b1.pending@ == p0);
        assert(wait_chunk(b1.wait) =~= Seq::<String>::empty());
        assert(name_views(wait_chunk(b1.wait)).to_multiset() =~= Multiset::<Seq<char>>::empty());
    }
}

/// After a split, the queued frames hold exactly the old frames' names plus
/// the split chunk's names, or fewer.
proof fn lemma_split_names_bound(p0: Seq<Frame>, p1: Seq<Frame>, names: Seq<String>, depth: int, x: Seq<char>)
    requires
        split_effect(p0, p1, names, depth),
    ensures
        frames_names(p1).to_multiset().count(x) <= frames_names(p0).to_multiset().count(x)
            + name_views(names).to_multiset().count(x),
{
    broadcast use vstd::seq_lib::group_to_multiset_ensures;

    if depth > 50 {
    } else if names.len() <= 1 {
        assert(p1 == p1.drop_last().push(p1.last()));
        lemma_frames_names_push(p0, p1.last());
        lemma_name_views_deep(p1.last().names);
        assert(name_views(p1.last().names@) == name_views(names));
        lemma_multiset_commutative(frames_names(p0), name_views(names));
    } else {
        let m = names.len() as int / 2;
        let left = names.subrange(0, m);
        let right = names.subrange(m, names.len() as int);
        let pr = p1.drop_last();
        assert(pr == p0.push(pr.last()));
        assert(p1 == pr.push(p1.last()));
        lemma_frames_names_push(p0, pr.last());
        lemma_frames_names_push(pr, p1.last());
        lemma_name_views_deep(pr.last().names);
        lemma_name_views_deep(p1.last().names);
        assert(name_views(pr.last().names@) == name_views(right));
        assert(name_views(p1.last().names@) == name_views(left));
        assert(names =~= left + right);
        assert(name_views(names) =~= name_views(left) + name_views(right));
        lemma_multiset_commutative(name_views(left), name_views(right));
        lemma_multiset_commutative(frames_names(p0), name_views(right));
        lemma_multiset_commutative(frames_names(p0) + name_views(right), name_views(left));
        assert(frames_names(p1) =~= frames_names(p0) + name_views(right) + name_views(left));
    }
}

/// Where every name is held at most once — as on a dictionary of pairwise
/// distinct names cut into disjoint chunks — a probe step keeps it so, and
/// the findings never come to carry a name twice.
pub proof fn lemma_probe_step_found_names_unique(
    cfg: ScanConfig,
    lg0: Ledger,
    p0: Seq<Frame>,
    names0: Seq<String>,
    depth: int,
    resp: Response,
    lg1: Ledger,
    b1: Bisector,
)
    requires
        probe_step(cfg, lg0, p0, names0, depth, resp, lg1, b1),
        each_name_once(held_names(lg0.found@, p0, names0)),
    ensures
        each_name_once(held_names(lg1.found@, b1.pending@, wait_chunk(b1.wait))),
        found_names(lg1.found@).no_duplicates(),
{
    lemma_probe_step_name_budget(cfg, lg0, p0, names0, depth, resp, lg1, b1);
    lemma_found_part_unique(lg1.found@, b1.pending@, wait_chunk(b1.wait));
}

/// If the machine's whole stock of names holds each at most once, the
/// findings alone hold no duplicates.
proof fn lemma_found_part_unique(found: Seq<FoundParameter>, p: Seq<Frame>, chunk: Seq<String>)
    requires
        each_name_once(held_names(found, p, chunk)),
    ensures
        found_names(found).no_duplicates(),
{
    assert forall|x: Seq<char>|
        found_names(found).to_multiset().contains(x) implies #[trigger] found_names(
        found,
    ).to_multiset().count(x) == 1 by {
        assert(held_names(found, p, chunk).count(x) <= 1);
    }
    found_names(found).lemma_multiset_has_no_duplicates_conv();
}

/// A noise-control step, too, never makes a name more plentiful, and so
/// keeps the findings free of duplicated names.
pub proof fn lemma_noise_step_name_budget(
    cfg: ScanConfig,
    lg0: Ledger,
    p0: Seq<Frame>,
    names: Seq<String>,
    depth: int,
    response: Response,
    fresh: Seq<Seq<char>>,
    control: Response,
    lg1: Ledger,
    b1: Bisector,
)
    requires
        noise_step(cfg, lg0, p0, names, depth, response, fresh, control, lg1, b1),
    ensures
        forall|x: Seq<char>|
            #[trigger] held_names(lg1.found@, b1.pending@, wait_chunk(b1.wait)).count(x)
                <= held_names(lg0.found@, p0, names).count(x),
{
    broadcast use vstd::seq_lib::group_to_multiset_ensures;

    assert forall|x: Seq<char>|
        #[trigger] held_names(lg1.found@, b1.pending@, wait_chunk(b1.wait)).count(x) <= held_names(
        lg0.found@,
        p0,
        names,
    ).count(x) by {
        assert(wait_chunk(b1.wait) =~= Seq::<String>::empty());
        assert(name_views(wait_chunk(b1.wait)).to_multiset() =~= Multiset::<Seq<char>>::empty());
        if lg1.found@.len() > lg0.found@.len() {
            assert(lg1.found@ == lg0.found@.push(lg1.found@.last()));
            assert(lg1.found@.last().name@ == names[0]@);
            assert(found_names(lg1.found@) =~= found_names(lg0.found@).push(names[0]@));
            assert(found_names(lg1.found@).to_multiset() =~= found_names(
                lg0.found@,
            ).to_multiset().insert(names[0]@));
            assert(name_views(names).to_multiset().count(names[0]@) >= 1) by {
                assert(name_views(names)[0] == names[0]@);
                assert(name_views(names).contains(names[0]@));
            }
            assert(b1.pending@ == p0);
        } else if lg1.found == lg0.found && b1.pending@ == p0 {
        } else {
            assert(split_effect(p0, b1.pending@, names, depth + 1));
            lemma_split_names_bound(p0, b1.pending@, names, depth + 1, x);
        }
    }
}

/// A stability-control step never makes a name more plentiful either: a
/// fatal outcome drops the chunk, a stable one resolves it as a code
/// difference.
pub proof fn lemma_stability_step_name_budget(
    cfg: ScanConfig,
    lg0: Ledger,
    p0: Seq<Frame>,
    names: Seq<String>,
    depth: int,
    response: Response,
    control_code: u16,
    lg1: Ledger,
    b1: Bisector,
    r: Result<(), ScanError>,
)
    requires
        stability_step(cfg, lg0, p0, names, depth, response, control_code, lg1, b1, r),
    ensures
        forall|x: Seq<char>|
            #[trigger] held_names(lg1.found@, b1.pending@, wait_chunk(b1.wait)).count(x)
                <= held_names(lg0.found@, p0, names).count(x),
{
    broadcast use vstd::seq_lib::group_to_multiset_ensures;

    assert forall|x: Seq<char>|
        #[trigger] held_names(lg1.found@, b1.pending@, wait_chunk(b1.wait)).count(x) <= held_names(
        lg0.found@,
        p0,
        names,
    ).count(x) by {
        assert(wait_chunk(b1.wait) =~= Seq::<String>::empty());
        assert(name_views(wait_chunk(b1.wait)).to_multiset() =~= Multiset::<Seq<char>>::empty());
        if control_code != cfg.baseline_code {
            assert(lg1.found@ == lg0.found@);
            assert(b1.pending@ == p0);
        } else if names.len() == 1 {
            assert(lg1.found@ == lg0.found@.push(lg1.found@.last()));
            assert(lg1.found@.last().name@ == names[0]@);
            assert(found_names(lg1.found@) =~= found_names(lg0.found@).push(names[0]@));
            assert(found_names(lg1.found@).to_multiset() =~= found_names(
                lg0.found@,
            ).to_multiset().insert(names[0]@));
            assert(name_views(names).to_multiset().count(names[0]@) >= 1) by {
                assert(name_views(names)[0] == names[0]@);
                assert(name_views(names).contains(names[0]@));
            }
            assert(b1.pending@ == p0);
        } else {
            assert(lg1.found@ == lg0.found@);
            assert(split_effect(p0, b1.pending@, names, depth + 1));
            lemma_split_names_bound(p0, b1.pending@, names, depth + 1, x);
        }
    }
}

/// The base case of the uniqueness argument: a bisector fresh on a chunk
/// whose names, together with the names already found, are pairwise
/// distinct, holds each name at most once. The dispatcher cuts the
/// dictionary into disjoint chunks, so a dictionary of distinct names
/// grants this for every chunk.
pub proof fn lemma_new_bisector_holds_names_once(
    found: Seq<FoundParameter>,
    p: Seq<Frame>,
    chunk: Seq<String>,
)
    requires
        (found_names(found) + name_views(chunk)).no_duplicates(),
        p.len() == 1,
        p[0].names@ == chunk,
    ensures
        each_name_once(held_names(found, p, Seq::<String>::empty())),
{
    broadcast use vstd::seq_lib::group_to_multiset_ensures;

    let whole = found_names(found) + name_views(chunk);
    whole.lemma_multiset_has_no_duplicates();
    lemma_multiset_commutative(found_names(found), name_views(chunk));
    assert(p.drop_last() =~= Seq::<Frame>::empty());
    assert(frames_names(p.drop_last()) =~= Seq::<Seq<char>>::empty());
    assert(p.last() == p[0]);
    lemma_name_views_deep(p[0].names);
    assert(frames_names(p) == frames_names(p.drop_last()) + p.last().names.deep_view());
    assert(frames_names(p) =~= name_views(chunk));
    assert(name_views(Seq::<String>::empty()).to_multiset() =~= Multiset::<Seq<char>>::empty());
    assert forall|x: Seq<char>|
        #[trigger] held_names(found, p, Seq::<String>::empty()).count(x) <= 1 by {
        if whole.to_multiset().count(x) > 0 {
            assert(whole.to_multiset().contains(x));
        }
    }
}

/// The names of the chunks not yet started, from position `i` on.
pub open spec fn chunks_names_from(s: Seq<Vec<String>>, i: int) -> Seq<Seq<char>>
    decreases s.len() - i,
{
    if i < 0 || i >= s.len() {
        Seq::empty()
    } else {
        s[i].deep_view() + chunks_names_from(s, i + 1)
    }
}

/// Every name a whole scan holds, with multiplicity: the findings, the
/// running bisector's chunks, and the chunks not yet started.
pub open spec fn scan_names(s: Scan) -> Multiset<Seq<char>> {
    held_names(s.ledger.found@, s.bis.pending@, wait_chunk(s.bis.wait)).add(
        chunks_names_from(s.chunks@, s.next_chunk as int).to_multiset(),
    )
}

/// A step that makes no name more plentiful across the whole scan.
pub open spec fn scan_names_step(s0: Scan, s1: Scan) -> bool {
    forall|x: Seq<char>| #[trigger] scan_names(s1).count(x) <= scan_names(s0).count(x)
}

/// Advancing the start position never adds a chunk name.
proof fn lemma_chunks_names_monotone(s: Seq<Vec<String>>, i: int, j: int, x: Seq<char>)
    requires
        0 <= i <= j,
    ensures
        chunks_names_from(s, j).to_multiset().count(x) <= chunks_names_from(
            s,
            i,
        ).to_multiset().count(x),
    decreases j - i,
{
    broadcast use vstd::seq_lib::group_to_multiset_ensures;

    if i < j {
        if i >= s.len() {
            assert(chunks_names_from(s, i).len() == 0);
            assert(chunks_names_from(s, j).len() == 0);
        } else {
            lemma_chunks_names_monotone(s, i + 1, j, x);
            lemma_multiset_commutative(s[i].deep_view(), chunks_names_from(s, i + 1));
        }
    }
}

/// Appending a chunk adds exactly its names to every suffix.
proof fn lemma_chunks_names_push(s: Seq<Vec<String>>, v: Vec<String>, i: int)
    requires
        0 <= i <= s.len(),
    ensures
        chunks_names_from(s.push(v), i).to_multiset() =~= chunks_names_from(
            s,
            i,
        ).to_multiset().add(v.deep_view().to_multiset()),
    decreases s.len() - i,
{
    broadcast use vstd::seq_lib::group_to_multiset_ensures;

    if i == s.len() {
        assert(s.push(v)[i] == v);
        assert(chunks_names_from(s.push(v), i + 1).len() == 0);
        assert(chunks_names_from(s, i).len() == 0);
        lemma_multiset_commutative(v.deep_view(), chunks_names_from(s.push(v), i + 1));
        assert(chunks_names_from(s.push(v), i + 1).to_multiset() =~= Multiset::<
            Seq<char>,
        >::empty());
        assert(chunks_names_from(s, i).to_multiset() =~= Multiset::<Seq<char>>::empty());
    } else {
        assert(s.push(v)[i] == s[i]);
        lemma_chunks_names_push(s, v, i + 1);
        lemma_multiset_commutative(s[i].deep_view(), chunks_names_from(s.push(v), i + 1));
        lemma_multiset_commutative(s[i].deep_view(), chunks_names_from(s, i + 1));
    }
}

/// The unstarted chunks hold, with multiplicity, exactly the names their
/// flattening spells.
proof fn lemma_chunks_names_flatten(s: Seq<Vec<String>>)
    ensures
        chunks_names_from(s, 0).to_multiset() =~= name_views(
            chunks_flatten(s),
        ).to_multiset(),
    decreases s.len(),
{
    broadcast use vstd::seq_lib::group_to_multiset_ensures;

    if s.len() == 0 {
        assert(chunks_names_from(s, 0).len() == 0);
        assert(name_views(chunks_flatten(s)).len() == 0);
    } else {
        let d = s.drop_last();
        lemma_chunks_names_flatten(d);
        assert(s == d.push(s.last()));
        lemma_chunks_names_push(d, s.last(), 0);
        assert(name_views(chunks_flatten(s)) =~= name_views(chunks_flatten(d)) + name_views(
            s.last()@,
        ));
        lemma_multiset_commutative(name_views(chunks_flatten(d)), name_views(s.last()@));
        lemma_name_views_deep(s.last());
    }
}

/// The base case of the whole-run uniqueness argument: a scan fresh from
/// `Scan::new` on a dictionary of pairwise distinct names holds each name
/// exactly once. The premises are exactly `Scan::new`'s ensures.
pub proof fn lemma_new_scan_names_once(s: Scan, params: Seq<String>)
    requires
        name_views(params).no_duplicates(),
        s.ledger.found@.len() == 0,
        s.bis.wait is Idle,
        s.bis.pending@.len() == 0,
        s.next_chunk == 0,
        chunks_flatten(s.chunks@) == params,
    ensures
        each_name_once(scan_names(s)),
{
    broadcast use vstd::seq_lib::group_to_multiset_ensures;

    name_views(params).lemma_multiset_has_no_duplicates();
    lemma_chunks_names_flatten(s.chunks@);
    assert(found_names(s.ledger.found@).len() == 0);
    assert(found_names(s.ledger.found@).to_multiset() =~= Multiset::<Seq<char>>::empty());
    assert(frames_names(s.bis.pending@).to_multiset() =~= Multiset::<Seq<char>>::empty());
    assert(name_views(wait_chunk(s.bis.wait)).to_multiset() =~= Multiset::<Seq<char>>::empty());
    assert forall|x: Seq<char>| #[trigger] scan_names(s).count(x) <= 1 by {
        if name_views(params).to_multiset().count(x) > 0 {
            assert(name_views(params).to_multiset().contains(x));
        }
    }
}

/// Feeding a probe outcome back (`Scan::on_response`) never makes a name
/// more plentiful across the whole scan. The premises are exactly what
/// `Scan::on_response` ensures.
pub proof fn lemma_scan_response_names(s0: Scan, resp: Response, s1: Scan, r: Result<
    (),
    ScanError,
>)
    requires
        scan_response_step(s0, resp, s1, r),
        awaiting(s0.bis.wait),
        s1.chunks == s0.chunks,
        s1.next_chunk == s0.next_chunk,
    ensures
        scan_names_step(s0, s1),
{
    broadcast use vstd::seq_lib::group_to_multiset_ensures;

    assert forall|x: Seq<char>| #[trigger] scan_names(s1).count(x) <= scan_names(s0).count(
        x,
    ) by {
        match s0.bis.wait {
            Wait::Probe { names, depth } => {
                lemma_probe_step_name_budget(
                    s0.cfg,
                    s0.ledger,
                    s0.bis.pending@,
                    names@,
                    depth as int,
                    resp,
                    s1.ledger,
                    s1.bis,
                );
                assert(wait_chunk(s0.bis.wait) == names@);
            },
            Wait::FailControl { names, .. } => {
                assert(name_views(wait_chunk(s1.bis.wait)).to_multiset() =~= Multiset::<
                    Seq<char>,
                >::empty());
            },
            Wait::Stability { names, depth, response } => {
                lemma_stability_step_name_budget(
                    s0.cfg,
                    s0.ledger,
                    s0.bis.pending@,
                    names@,
                    depth as int,
                    response,
                    resp.code,
                    s1.ledger,
                    s1.bis,
                    r,
                );
                assert(wait_chunk(s0.bis.wait) == names@);
            },
            Wait::Noise { names, depth, response, fresh } => {
                lemma_noise_step_name_budget(
                    s0.cfg,
                    s0.ledger,
                    s0.bis.pending@,
                    names@,
                    depth as int,
                    response,
                    fresh.deep_view(),
                    resp,
                    s1.ledger,
                    s1.bis,
                );
                assert(wait_chunk(s0.bis.wait) == names@);
            },
            _ => {
                assert(false);
            },
        }
    }
}

/// Reporting a transport failure (`Scan::on_failure`) never makes a name
/// more plentiful either. The premises are exactly what `Scan::on_failure`
/// ensures.
pub proof fn lemma_scan_failure_names(s0: Scan, s1: Scan, r: Result<(), ScanError>)
    requires
        scan_failure_step(s0, s1, r),
        awaiting(s0.bis.wait),
        s1.chunks == s0.chunks,
        s1.next_chunk == s0.next_chunk,
    ensures
        scan_names_step(s0, s1),
{
    broadcast use vstd::seq_lib::group_to_multiset_ensures;

    assert forall|x: Seq<char>| #[trigger] scan_names(s1).count(x) <= scan_names(s0).count(
        x,
    ) by {
        match s0.bis.wait {
            Wait::Probe { names, .. } => {
                assert(wait_chunk(s1.bis.wait) == names@);
            },
            Wait::FailControl { names, .. } => {
                assert(name_views(wait_chunk(s1.bis.wait)).to_multiset() =~= Multiset::<
                    Seq<char>,
                >::empty());
            },
            Wait::Stability { names, depth, response } => {
                lemma_stability_step_name_budget(
                    s0.cfg,
                    s0.ledger,
                    s0.bis.pending@,
                    names@,
                    depth as int,
                    response,
                    0u16,
                    s1.ledger,
                    s1.bis,
                    r,
                );
                assert(wait_chunk(s0.bis.wait) == names@);
            },
            Wait::Noise { names, .. } => {
                assert(name_views(wait_chunk(s1.bis.wait)).to_multiset() =~= Multiset::<
                    Seq<char>,
                >::empty());
            },
            _ => {
                assert(false);
            },
        }
    }
}

/// Asking for the next action (`Scan::next`) never makes a name more
/// plentiful: frames move into the wait, guarded frames and empty chunks
/// are dropped, and a started chunk leaves the unstarted ones. Each
/// disjunct of the premise is one case of `Scan::next`'s ensures.
pub proof fn lemma_scan_next_names(s0: Scan, s1: Scan)
    requires
        s1.ledger == s0.ledger,
        s1.chunks == s0.chunks,
        s1.next_chunk >= s0.next_chunk,
        ({
            ||| (s1.bis == s0.bis && s1.next_chunk == s0.next_chunk)
            ||| (s0.bis.wait is Idle && skip_guards(s0.bis.pending@).len() > 0 && {
                let live = skip_guards(s0.bis.pending@);
                &&& s1.next_chunk == s0.next_chunk
                &&& s1.bis.pending@ == live.drop_last()
                &&& s1.bis.wait == (Wait::Probe {
                    names: live.last().names,
                    depth: live.last().depth,
                })
            })
            ||| ((s0.bis.wait is Idle || s0.bis.wait is Finished) && {
                let k = first_live_chunk(s0.chunks@, s0.next_chunk as int);
                &&& 0 <= k < s0.chunks@.len()
                &&& s0.next_chunk as int <= k
                &&& s1.next_chunk == k + 1
                &&& s1.bis.pending@.len() == 0
                &&& (s1.bis.wait matches Wait::Probe { names, .. } && names@ == s0.chunks@[k]@)
            })
            ||| (s1.bis.wait is Finished && (s1.bis.pending@ == s0.bis.pending@
                || s1.bis.pending@.len() == 0))
        }),
    ensures
        scan_names_step(s0, s1),
{
    broadcast use vstd::seq_lib::group_to_multiset_ensures;

    assert forall|x: Seq<char>| #[trigger] scan_names(s1).count(x) <= scan_names(s0).count(
        x,
    ) by {
        lemma_chunks_names_monotone(s0.chunks@, s0.next_chunk as int, s1.next_chunk as int, x);
        if s1.bis == s0.bis && s1.next_chunk == s0.next_chunk {
        } else if s0.bis.wait is Idle && skip_guards(s0.bis.pending@).len() > 0
            && s1.next_chunk == s0.next_chunk && s1.bis.pending@ == skip_guards(
            s0.bis.pending@,
        ).drop_last() && s1.bis.wait == (Wait::Probe {
            names: skip_guards(s0.bis.pending@).last().names,
            depth: skip_guards(s0.bis.pending@).last().depth,
        }) {
            lemma_next_name_budget(s0.bis, s1.bis, s0.ledger.found@);
            assert(name_views(wait_chunk(s0.bis.wait)).to_multiset() =~= Multiset::<
                Seq<char>,
            >::empty());
        } else if (s0.bis.wait is Idle || s0.bis.wait is Finished) && ({
            let k = first_live_chunk(s0.chunks@, s0.next_chunk as int);
            0 <= k < s0.chunks@.len() && s0.next_chunk as int <= k && s1.next_chunk == k + 1
                && s1.bis.pending@.len() == 0 && (s1.bis.wait matches Wait::Probe { names, .. }
                && names@ == s0.chunks@[k]@)
        }) {
            let k = first_live_chunk(s0.chunks@, s0.next_chunk as int);
            // the started chunk's names leave the unstarted chunks
            assert(chunks_names_from(s0.chunks@, k) == s0.chunks@[k].deep_view()
                + chunks_names_from(s0.chunks@, k + 1));
            lemma_multiset_commutative(
                s0.chunks@[k].deep_view(),
                chunks_names_from(s0.chunks@, k + 1),
            );
            lemma_chunks_names_monotone(s0.chunks@, s0.next_chunk as int, k, x);
            assert(name_views(wait_chunk(s1.bis.wait)) =~= s0.chunks@[k].deep_view());
            assert(frames_names(s1.bis.pending@).to_multiset() =~= Multiset::<
                Seq<char>,
            >::empty());
            assert(name_views(wait_chunk(s0.bis.wait)).to_multiset() =~= Multiset::<
                Seq<char>,
            >::empty());
        } else {
            assert(s1.bis.wait is Finished && (s1.bis.pending@ == s0.bis.pending@
                || s1.bis.pending@.len() == 0));
            if s1.bis.pending@.len() == 0 {
                assert(frames_names(s1.bis.pending@).to_multiset() =~= Multiset::<
                    Seq<char>,
                >::empty());
            }
            assert(name_views(wait_chunk(s1.bis.wait)).to_multiset() =~= Multiset::<
                Seq<char>,
            >::empty());
        }
    }
}

/// Each name found at most once, end to end: over any run of the machine —
/// a sequence of states whose consecutive members are related by a step
/// that makes no name more plentiful, which `lemma_scan_next_names`,
/// `lemma_scan_response_names` and `lemma_scan_failure_names` give for
/// every public transition — a scan that starts holding each name at most
/// once (as `lemma_new_scan_names_once` gives for a dictionary of pairwise
/// distinct names) never records any name twice.
pub proof fn lemma_run_names_once(t: Seq<Scan>)
    requires
        t.len() > 0,
        forall|i: int| 0 <= i < t.len() - 1 ==> scan_names_step(#[trigger] t[i], t[i + 1]),
        each_name_once(scan_names(t[0])),
    ensures
        each_name_once(scan_names(t.last())),
        found_names(t.last().ledger.found@).no_duplicates(),
    decreases t.len(),
{
    if t.len() > 1 {
        let t2 = t.drop_first();
        assert(scan_names_step(t[0], t[1]));
        assert(t2[0] == t[1]);
        assert(each_name_once(scan_names(t2[0]))) by {
            assert forall|x: Seq<char>| #[trigger] scan_names(t2[0]).count(x) <= 1 by {
                assert(scan_names(t[1]).count(x) <= scan_names(t[0]).count(x));
            }
        }
        assert forall|i: int|
            0 <= i < t2.len() - 1 implies scan_names_step(#[trigger] t2[i], t2[i + 1]) by {
            assert(t2[i] == t[i + 1]);
            assert(t2[i + 1] == t[i + 2]);
        }
        lemma_run_names_once(t2);
        assert(t2.last() == t.last());
    } else {
        let s = t.last();
        assert forall|x: Seq<char>|
            found_names(s.ledger.found@).to_multiset().contains(x) implies #[trigger] found_names(
            s.ledger.found@,
        ).to_multiset().count(x) == 1 by {
            assert(scan_names(s).count(x) <= 1);
        }
        found_names(s.ledger.found@).lemma_multiset_has_no_duplicates_conv();
    }
}

/// All findings from position `from` on carry a reflection reason.
pub open spec fn reflection_kinds_only(s: Seq<FoundParameter>, from: int) -> bool {
    forall|i: int|
        from <= i < s.len() ==> ((#[trigger] s[i]).reason == ReasonKind::Reflected || s[i].reason
            == ReasonKind::NotReflected)
}

/// One step of a reflected-only scan: findings grow only by reflection
/// findings, and no code or body control probe is ever started.
pub open spec fn reflected_only_step(s0: Scan, s1: Scan) -> bool {
    &&& s1.cfg == s0.cfg
    &&& s0.ledger.found@.is_prefix_of(s1.ledger.found@)
    &&& reflection_kinds_only(s1.ledger.found@, s0.ledger.found@.len() as int)
    &&& !(s1.bis.wait is Stability)
    &&& !(s1.bis.wait is Noise)
}

/// Under `reflected_only` with reflection analysis enabled, feeding a probe
/// outcome back is a reflected-only step. The premises are what
/// `Scan::on_response` ensures, given that no code or body control probe
/// was in flight — which these steps themselves maintain from `Scan::new`.
pub proof fn lemma_scan_response_reflected_only(s0: Scan, resp: Response, s1: Scan, r: Result<
    (),
    ScanError,
>)
    requires
        scan_response_step(s0, resp, s1, r),
        awaiting(s0.bis.wait),
        !(s0.bis.wait is Stability),
        !(s0.bis.wait is Noise),
        s0.cfg.reflected_only,
        s0.cfg.stable_reflections,
        s1.cfg == s0.cfg,
    ensures
        reflected_only_step(s0, s1),
{
    match s0.bis.wait {
        Wait::Probe { names, depth } => {
            lemma_reflected_only_reflections(
                s0.cfg,
                s0.ledger,
                s0.bis.pending@,
                names@,
                depth as int,
                resp,
                s1.ledger,
                s1.bis,
            );
        },
        Wait::FailControl { .. } => {
            assert(s0.ledger.found@ =~= s1.ledger.found@.subrange(
                0,
                s0.ledger.found@.len() as int,
            ));
        },
        _ => {
            assert(false);
        },
    }
}

/// Under the same flags, reporting a transport failure is a reflected-only
/// step too: it records nothing.
pub proof fn lemma_scan_failure_reflected_only(s0: Scan, s1: Scan, r: Result<(), ScanError>)
    requires
        scan_failure_step(s0, s1, r),
        awaiting(s0.bis.wait),
        !(s0.bis.wait is Stability),
        !(s0.bis.wait is Noise),
        s1.cfg == s0.cfg,
    ensures
        reflected_only_step(s0, s1),
{
    match s0.bis.wait {
        Wait::Probe { .. } => {
            assert(s0.ledger.found@ =~= s1.ledger.found@.subrange(
                0,
                s0.ledger.found@.len() as int,
            ));
        },
        Wait::FailControl { .. } => {
            assert(s0.ledger.found@ =~= s1.ledger.found@.subrange(
                0,
                s0.ledger.found@.len() as int,
            ));
        },
        _ => {
            assert(false);
        },
    }
}

/// Asking for the next action is a reflected-only step as well: it records
/// nothing and only ever starts real probes. The disjuncts are the cases of
/// `Scan::next`'s ensures.
pub proof fn lemma_scan_next_reflected_only(s0: Scan, s1: Scan)
    requires
        s1.cfg == s0.cfg,
        s1.ledger == s0.ledger,
        !(s0.bis.wait is Stability),
        !(s0.bis.wait is Noise),
        ({
            ||| s1.bis == s0.bis
            ||| s1.bis.wait is Probe
            ||| s1.bis.wait is Finished
        }),
    ensures
        reflected_only_step(s0, s1),
{
    assert(s0.ledger.found@ =~= s1.ledger.found@.subrange(0, s0.ledger.found@.len() as int));
}

/// The reflected-only guarantee, end to end: over any run of
/// reflected-only steps — which the three lemmas above give for every
/// public transition under `reflected_only` with reflection analysis
/// enabled — every finding ever recorded carries a reflection reason.
pub proof fn lemma_run_reflected_only(t: Seq<Scan>)
    requires
        t.len() > 0,
        forall|i: int| 0 <= i < t.len() - 1 ==> reflected_only_step(#[trigger] t[i], t[i + 1]),
        reflection_kinds_only(t[0].ledger.found@, 0),
    ensures
        reflection_kinds_only(t.last().ledger.found@, 0),
    decreases t.len(),
{
    if t.len() > 1 {
        let t2 = t.drop_first();
        assert(reflected_only_step(t[0], t[1]));
        assert(t2[0] == t[1]);
        assert(reflection_kinds_only(t2[0].ledger.found@, 0)) by {
            let f0 = t[0].ledger.found@;
            let f1 = t[1].ledger.found@;
            assert forall|i: int|
                0 <= i < f1.len() implies ((#[trigger] f1[i]).reason == ReasonKind::Reflected
                || f1[i].reason == ReasonKind::NotReflected) by {
                if i < f0.len() {
                    assert(f1.subrange(0, f0.len() as int)[i] == f1[i]);
                    assert(f0[i] == f1[i]);
                }
            }
        }
        assert forall|i: int|
            0 <= i < t2.len() - 1 implies reflected_only_step(#[trigger] t2[i], t2[i + 1]) by {
            assert(t2[i] == t[i + 1]);
            assert(t2[i + 1] == t[i + 2]);
        }
        lemma_run_reflected_only(t2);
        assert(t2.last() == t.last());
    }
}

/// The size bound, end to end: over any run of the machine — a sequence
/// of states whose consecutive members are related by a public transition
/// (`next`, `on_response`, `on_failure`), as each of their contracts
/// ensures — the findings never outnumber the budget the run started
/// with. A scan fresh from `Scan::new` has no findings and a budget of
/// exactly the dictionary's size, so its findings never outnumber the
/// dictionary.
pub proof fn lemma_run_findings_bounded(t: Seq<Scan>, n: nat)
    requires
        t.len() > 0,
        forall|i: int| 0 <= i < t.len() - 1 ==> scan_transition(#[trigger] t[i], t[i + 1]),
        t[0].ledger.found@.len() + scan_budget(t[0]) <= n,
    ensures
        t.last().ledger.found@.len() + scan_budget(t.last()) <= n,
        t.last().ledger.found@.len() <= n,
    decreases t.len(),
{
    if t.len() > 1 {
        let t2 = t.drop_first();
        assert(scan_transition(t[0], t[1]));
        assert(t2[0] == t[1]);
        assert forall|i: int|
            0 <= i < t2.len() - 1 implies scan_transition(#[trigger] t2[i], t2[i + 1]) by {
            assert(t2[i] == t[i + 1]);
            assert(t2[i + 1] == t[i + 2]);
        }
        lemma_run_findings_bounded(t2, n);
        assert(t2.last() == t.last());
    }
}

/// Dropping guarded frames never adds a name.
proof fn lemma_skip_guards_names(s: Seq<Frame>, x: Seq<char>)
    ensures
        frames_names(skip_guards(s)).to_multiset().count(x) <= frames_names(s).to_multiset().count(
            x,
        ),
    decreases s.len(),
{
    broadcast use vstd::seq_lib::group_to_multiset_ensures;

    if s.len() > 0 && !frame_live(s.last()) {
        lemma_skip_guards_names(s.drop_last(), x);
        lemma_multiset_commutative(frames_names(s.drop_last()), s.last().names.deep_view());
    }
}

/// Starting the next frame — dropping the guarded ones, moving the top
/// live one into the wait — never adds a name: `next`'s outcome holds no
/// name more often than its input did.
pub proof fn lemma_next_name_budget(b0: Bisector, b1: Bisector, found: Seq<FoundParameter>)
    requires
        b0.wait is Idle,
        ({
            let live = skip_guards(b0.pending@);
            if live.len() == 0 {
                b1.pending@.len() == 0 && wait_chunk(b1.wait) == Seq::<String>::empty()
            } else {
                b1.pending@ == live.drop_last() && wait_chunk(b1.wait) == live.last().names@
            }
        }),
    ensures
        forall|x: Seq<char>|
            #[trigger] held_names(found, b1.pending@, wait_chunk(b1.wait)).count(x) <= held_names(
                found,
                b0.pending@,
                wait_chunk(b0.wait),
            ).count(x),
{
    broadcast use vstd::seq_lib::group_to_multiset_ensures;

    let live = skip_guards(b0.pending@);
    assert forall|x: Seq<char>|
        #[trigger] held_names(found, b1.pending@, wait_chunk(b1.wait)).count(x) <= held_names(
        found,
        b0.pending@,
        wait_chunk(b0.wait),
    ).count(x) by {
        lemma_skip_guards_names(b0.pending@, x);
        assert(name_views(wait_chunk(b0.wait)).to_multiset() =~= Multiset::<Seq<char>>::empty());
        if live.len() == 0 {
            assert(frames_names(b1.pending@).to_multiset() =~= Multiset::<Seq<char>>::empty());
            assert(name_views(wait_chunk(b1.wait)).to_multiset() =~= Multiset::<
                Seq<char>,
            >::empty());
        } else {
            assert(live == live.drop_last().push(live.last()));
            lemma_frames_names_push(live.drop_last(), live.last());
            lemma_name_views_deep(live.last().names);
            lemma_multiset_commutative(frames_names(live.drop_last()), live.last().names.deep_view());
        }
    }
}

/// Under `reflected_only` (with reflection analysis enabled), a probe step
/// records at most one finding, every finding it records is a reflection —
/// its reason is `Reflected` or `NotReflected` — and the chunk never goes
/// on to a code or body control probe.
pub proof fn lemma_reflected_only_reflections(
    cfg: ScanConfig,
    lg0: Ledger,
    p0: Seq<Frame>,
    names0: Seq<String>,
    depth: int,
    resp: Response,
    lg1: Ledger,
    b1: Bisector,
)
    requires
        probe_step(cfg, lg0, p0, names0, depth, resp, lg1, b1),
        cfg.stable_reflections,
        cfg.reflected_only,
    ensures
        lg1.found@.len() <= lg0.found@.len() + 1,
        forall|i: int|
            lg0.found@.len() <= i < lg1.found@.len() ==> ((#[trigger] lg1.found@[i]).reason
                == ReasonKind::Reflected || lg1.found@[i].reason == ReasonKind::NotReflected),
        lg0.found@.is_prefix_of(lg1.found@),
        b1.wait is Idle,
{
    let hit = reflection_hit(cfg, lg0.found@, names0, resp);
    if hit {
        assert(lg1.found@ == lg0.found@.push(lg1.found@[lg0.found@.len() as int]));
        assert(lg0.found@ =~= lg1.found@.subrange(0, lg0.found@.len() as int));
    } else {
        assert(lg1.found@ == lg0.found@);
        assert(lg0.found@ =~= lg1.found@.subrange(0, lg0.found@.len() as int));
    }
}

/// A probe step records at most two findings, and any `Reflected`,
/// `NotReflected` or `Text` finding it records is for a name that had no
/// finding before the step: those findings are never duplicated. (A `Code`
/// finding names the chunk's lone member, which bisection gives to one
/// chunk only.)
pub proof fn lemma_probe_step_records_fresh_names(
    cfg: ScanConfig,
    lg0: Ledger,
    p0: Seq<Frame>,
    names0: Seq<String>,
    depth: int,
    resp: Response,
    lg1: Ledger,
    b1: Bisector,
)
    requires
        probe_step(cfg, lg0, p0, names0, depth, resp, lg1, b1),
    ensures
        lg1.found@.len() <= lg0.found@.len() + 2,
        forall|i: int|
            lg0.found@.len() <= i < lg1.found@.len() && (#[trigger] lg1.found@[i]).reason
                != ReasonKind::Code ==> !found_names(lg0.found@).contains(lg1.found@[i].name@),
{
    let hit = reflection_hit(cfg, lg0.found@, names0, resp);
    let len0 = lg0.found@.len() as int;
    let found_mid = if hit {
        lg0.found@.push(lg1.found@[len0])
    } else {
        lg0.found@
    };
    assert(lg1.found@ == found_mid || (lg1.found@ == found_mid.push(lg1.found@.last())
        && lg1.found@.last().reason == ReasonKind::Code));
    assert forall|i: int|
        len0 <= i < lg1.found@.len() && (#[trigger] lg1.found@[i]).reason != ReasonKind::Code
        implies !found_names(lg0.found@).contains(lg1.found@[i].name@) by {
        if hit && i == len0 {
            assert(lg1.found@[i].name@ == (resp.reflected->Some_0)@);
        } else {
            assert(lg1.found@[i] == lg1.found@.last() && lg1.found@.last().reason
                == ReasonKind::Code);
        }
    }
}

/// A noise-control step records at most one finding, always a `Text` one,
/// and only for a name that had no finding before the step.
pub proof fn lemma_noise_step_records_fresh_name(
    cfg: ScanConfig,
    lg0: Ledger,
    p0: Seq<Frame>,
    names: Seq<String>,
    depth: int,
    response: Response,
    fresh: Seq<Seq<char>>,
    control: Response,
    lg1: Ledger,
    b1: Bisector,
)
    requires
        noise_step(cfg, lg0, p0, names, depth, response, fresh, control, lg1, b1),
    ensures
        lg1.found@.len() <= lg0.found@.len() + 1,
        forall|i: int|
            lg0.found@.len() <= i < lg1.found@.len() ==> (#[trigger] lg1.found@[i]).reason
                == ReasonKind::Text && !found_names(lg0.found@).contains(lg1.found@[i].name@),
{
    if lg1.found@.len() > lg0.found@.len() {
        assert(lg1.found@[lg0.found@.len() as int] == lg1.found@.last());
        assert(lg1.found@.last().name@ == names[0]@);
        assert(!found_names(lg0.found@).contains(names[0]@));
    }
}

/// A bisection call past the runaway depth bound, or with an empty chunk,
/// is dropped by `next` like the guarded frames below it: no probe is
/// issued for it, and `next` takes no ledger at all, so the drop cannot
/// mutate the scan's state.
pub proof fn lemma_guarded_frame_skipped(s: Seq<Frame>, f: Frame)
    requires
        !frame_live(f),
    ensures
        skip_guards(s.push(f)) == skip_guards(s),
{
    assert(s.push(f).drop_last() =~= s);
}

} // verus!
