//! Verified helpers over vectors of strings: lookup, equality, cloning, and
//! the diff-filtering the engine performs against its ledger.

use vstd::prelude::*;
use vstd::string::StringExecFns;

verus! {

/// Position of the first occurrence of `s` in `v`, if any.
pub fn find_name(v: &Vec<String>, s: &String) -> (r: Option<usize>)
    ensures
        match r {
            Some(i) => i < v@.len() && v.deep_view()[i as int] == s@ && forall|j: int|
                0 <= j < i ==> v.deep_view()[j] != s@,
            None => !v.deep_view().contains(s@),
        },
{
    let mut i: usize = 0;
    while i < v.len()
        invariant
            i <= v@.len(),
            forall|j: int| 0 <= j < i ==> v.deep_view()[j] != s@,
        decreases v@.len() - i,
    {
        if v[i] == *s {
            return Some(i);
        }
        i += 1;
    }
    proof {
        assert(forall|j: int| 0 <= j < v.deep_view().len() ==> v.deep_view()[j] != s@);
    }
    None
}

/// Whether `s` occurs in `v`.
pub fn contains_name(v: &Vec<String>, s: &String) -> (r: bool)
    ensures
        r == v.deep_view().contains(s@),
{
    let r = find_name(v, s);
    match r {
        Some(i) => {
            proof {
                assert(v.deep_view().contains(s@)) by {
                    assert(v.deep_view()[i as int] == s@);
                }
            }
            true
        },
        None => false,
    }
}

/// A diff list joined into one signature, the entries separated by `|` —
/// the form the scan's strict mode compares findings by.
pub open spec fn joined_sig(s: Seq<Seq<char>>) -> Seq<char>
    decreases s.len(),
{
    if s.len() == 0 {
        Seq::empty()
    } else if s.len() == 1 {
        s[0]
    } else {
        joined_sig(s.drop_last()) + seq!['|'] + s.last()
    }
}

/// Joins a diff list into its signature string, the entries separated by
/// `|`.
pub fn join_signature(v: &Vec<String>) -> (r: String)
    ensures
        r@ == joined_sig(v.deep_view()),
{
    let mut r = String::new();
    let mut i: usize = 0;
    while i < v.len()
        invariant
            i <= v@.len(),
            r@ == joined_sig(v.deep_view().take(i as int)),
        decreases v@.len() - i,
    {
        if i > 0 {
            proof {
                reveal_strlit("|");
                assert("|"@ =~= seq!['|']);
            }
            r.append("|");
        }
        let e = &v[i];
        r.append(e.as_str());
        proof {
            assert(v.deep_view()[i as int] == e@);
            assert(v.deep_view().take(i as int + 1).drop_last() =~= v.deep_view().take(i as int));
            assert(v.deep_view().take(i as int + 1).last() == v.deep_view()[i as int]);
            if i == 0 {
                assert(r@ =~= v.deep_view()[0]);
            } else {
                assert(r@ =~= joined_sig(v.deep_view().take(i as int)) + seq!['|'] + v.deep_view()[
                    i as int
                ]);
            }
            assert(r@ == joined_sig(v.deep_view().take(i as int + 1)));
        }
        i += 1;
    }
    proof {
        assert(v.deep_view().take(v.deep_view().len() as int) =~= v.deep_view());
    }
    r
}

/// A copy of `v` with the same contents.
pub fn clone_names(v: &Vec<String>) -> (r: Vec<String>)
    ensures
        r@ == v@,
        r.deep_view() == v.deep_view(),
{
    let mut r: Vec<String> = Vec::new();
    let mut i: usize = 0;
    while i < v.len()
        invariant
            i <= v@.len(),
            r@ =~= v@.take(i as int),
        decreases v@.len() - i,
    {
        let e = &v[i];
        let c = String::clone(e);
        r.push(c);
        proof {
            assert(r@ =~= v@.take(i as int + 1));
        }
        i += 1;
    }
    proof {
        assert(r@ =~= v@);
    }
    r
}

/// The diffs of a response that the ledger does not already know, kept in
/// response order.
pub open spec fn fresh_diffs(resp: Seq<Seq<char>>, known: Seq<Seq<char>>) -> Seq<Seq<char>>
    decreases resp.len(),
{
    if resp.len() == 0 {
        Seq::empty()
    } else {
        let rest = fresh_diffs(resp.drop_last(), known);
        if known.contains(resp.last()) {
            rest
        } else {
            rest.push(resp.last())
        }
    }
}

/// A ledger of diffs after absorbing a response's diffs left to right,
/// skipping the ones already present.
pub open spec fn absorb_diffs_spec(known: Seq<Seq<char>>, resp: Seq<Seq<char>>) -> Seq<Seq<char>>
    decreases resp.len(),
{
    if resp.len() == 0 {
        known
    } else {
        let k1 = if known.contains(resp.first()) {
            known
        } else {
            known.push(resp.first())
        };
        absorb_diffs_spec(k1, resp.drop_first())
    }
}

/// Collects the diffs of `resp` that are not members of `known`.
pub fn filter_fresh(resp: &Vec<String>, known: &Vec<String>) -> (r: Vec<String>)
    ensures
        r.deep_view() == fresh_diffs(resp.deep_view(), known.deep_view()),
{
    let mut r: Vec<String> = Vec::new();
    let mut i: usize = 0;
    while i < resp.len()
        invariant
            i <= resp@.len(),
            r.deep_view() == fresh_diffs(resp.deep_view().take(i as int), known.deep_view()),
        decreases resp@.len() - i,
    {
        proof {
            assert(resp.deep_view().take(i + 1 as int).drop_last() =~= resp.deep_view().take(
                i as int,
            ));
            assert(resp.deep_view().take(i + 1 as int).last() == resp.deep_view()[i as int]);
        }
        if !contains_name(known, &resp[i]) {
            let old_r = Ghost(r.deep_view());
            r.push(resp[i].clone());
            proof {
                assert(r.deep_view() =~= old_r@.push(resp.deep_view()[i as int]));
            }
        }
        i += 1;
    }
    proof {
        assert(resp.deep_view().take(resp.deep_view().len() as int) =~= resp.deep_view());
    }
    r
}

} // verus!
