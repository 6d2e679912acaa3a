//! The reference kernel, which defines the result that the other kernel has to match exactly.
use vstd::prelude::*;
use vstd::string::StringExecFns;

use crate::posting_intersect::merging::{
    is_met, lemma_all_met, lemma_merge_step, lemma_nothing_met,
};
use crate::posting_intersect::{
    any_empty, contents, intersection, lemma_empty_list, lemma_first_two, lemma_intersection,
    lemma_next_list, lemma_single, lemma_stays_empty, pair_intersection, sorted_unique_lists,
};
use crate::sorted::strictly_increasing;
use crate::text::{append_decimal, decimal, text_of};

verus! {

/// Two-finger merge of two sorted lists without duplicates, appended to `out`.
pub fn pairwise_intersect(a: &[u32], b: &[u32], out: &mut Vec<u32>)
    requires
        strictly_increasing(a@),
        strictly_increasing(b@),
    ensures
        final(out)@ == old(out)@ + pair_intersection(a@, b@),
{
    let ghost base = out@;
    let ghost mut r: Seq<u32> = Seq::empty();
    let mut i: usize = 0;
    let mut j: usize = 0;
    proof {
        lemma_nothing_met(a@, b@);
        assert(base + r =~= base);
    }
    while i < a.len() && j < b.len()
        invariant
            strictly_increasing(a@),
            strictly_increasing(b@),
            i <= a@.len(),
            j <= b@.len(),
            is_met(a@, b@, i as int, j as int, r),
            out@ == base + r,
        decreases a@.len() - i + b@.len() - j,
    {
        let av: u32 = a[i];
        let bv: u32 = b[j];
        proof {
            lemma_merge_step(a@, b@, i as int, j as int, r);
        }
        if av == bv {
            out.push(av);
            proof {
                assert(base + r.push(av) =~= (base + r).push(av));
                r = r.push(av);
            }
            i += 1;
            j += 1;
        } else if av < bv {
            i += 1;
        } else {
            j += 1;
        }
    }
    proof {
        lemma_all_met(a@, b@, i as int, j as int, r);
    }
}

/// Replaces the contents of `out` by the ids that occur in every list, ascending and without
/// duplicates, by merging the lists one after the other.
pub fn intersect_reference(lists: &[&[u32]], out: &mut Vec<u32>)
    requires
        sorted_unique_lists(contents(lists@)),
    ensures
        final(out)@ == intersection(contents(lists@)),
{
    let ghost all = contents(lists@);
    out.clear();
    if lists.len() == 0 {
        return;
    }
    if lists.len() == 1 {
        out.extend_from_slice(lists[0]);
        proof {
            lemma_single(all);
            assert(out@ =~= all[0]);
        }
        return;
    }
    if any_empty(lists) {
        proof {
            lemma_empty_list(all);
        }
        return;
    }
    proof {
        lemma_first_two(all);
    }
    pairwise_intersect(lists[0], lists[1], out);
    assert(out@ =~= pair_intersection(all[0], all[1]));
    let mut scratch: Vec<u32> = Vec::with_capacity(out.len());
    let mut k: usize = 2;
    while k < lists.len()
        invariant
            all == contents(lists@),
            sorted_unique_lists(all),
            2 <= k <= lists@.len(),
            out@ == intersection(all.take(k as int)),
        decreases lists@.len() - k,
    {
        if out.len() == 0 {
            proof {
                lemma_stays_empty(all, k as int);
            }
            return;
        }
        proof {
            lemma_intersection(all.take(k as int));
            lemma_next_list(all, k as int);
        }
        scratch.clear();
        pairwise_intersect(out.as_slice(), lists[k], &mut scratch);
        assert(scratch@ =~= pair_intersection(intersection(all.take(k as int)), all[k as int]));
        core::mem::swap(out, &mut scratch);
        k += 1;
    }
    assert(all.take(k as int) =~= all);
}

/// The report of two results of different lengths.
pub open spec fn length_report(agent: nat, reference: nat) -> Seq<char> {
    "length mismatch: agent="@ + decimal(agent) + " reference="@ + decimal(reference)
}

/// The report of two results that first differ at element `i`.
pub open spec fn element_report(i: nat, agent: u32, reference: u32) -> Seq<char> {
    "element "@ + decimal(i) + ": agent="@ + decimal(agent as nat) + " reference="@ + decimal(
        reference as nat,
    )
}

/// The two sequences agree up to `i` and differ there.
pub open spec fn first_difference(a: Seq<u32>, b: Seq<u32>, i: int) -> bool {
    &&& 0 <= i < a.len()
    &&& i < b.len()
    &&& a[i] != b[i]
    &&& a.take(i) == b.take(i)
}

/// What a comparison of two results gives: nothing where they are equal, otherwise a report of the
/// lengths where those differ, or of the first difference.
pub open spec fn is_diff(agent: Seq<u32>, reference: Seq<u32>, diff: Option<Seq<char>>) -> bool {
    match diff {
        None => agent == reference,
        Some(report) => if agent.len() != reference.len() {
            report == length_report(agent.len(), reference.len())
        } else {
            exists|i: int| #[trigger]
                first_difference(agent, reference, i) && report == element_report(
                    i as nat,
                    agent[i],
                    reference[i],
                )
        },
    }
}

/// Compares two results: `None` where they are equal, otherwise a report of the first difference.
pub fn intersections_diff(agent: &[u32], reference: &[u32]) -> (r: Option<String>)
    ensures
        is_diff(agent@, reference@, text_of(r)),
        r is None <==> agent@ == reference@,
{
    if agent.len() != reference.len() {
        let mut report: String = String::new();
        report.append("length mismatch: agent=");
        append_decimal(&mut report, agent.len() as u64);
        report.append(" reference=");
        append_decimal(&mut report, reference.len() as u64);
        assert(report@ =~= length_report(agent@.len(), reference@.len()));
        return Some(report);
    }
    let mut i: usize = 0;
    while i < agent.len()
        invariant
            i <= agent@.len(),
            agent@.len() == reference@.len(),
            agent@.take(i as int) == reference@.take(i as int),
        decreases agent@.len() - i,
    {
        let a: u32 = agent[i];
        let r: u32 = reference[i];
        if a != r {
            let mut report: String = String::new();
            report.append("element ");
            append_decimal(&mut report, i as u64);
            report.append(": agent=");
            append_decimal(&mut report, a as u64);
            report.append(" reference=");
            append_decimal(&mut report, r as u64);
            assert(report@ =~= element_report(i as nat, a, r));
            assert(first_difference(agent@, reference@, i as int));
            return Some(report);
        }
        assert(agent@.take(i + 1) =~= agent@.take(i as int).push(a));
        assert(reference@.take(i + 1) =~= reference@.take(i as int).push(r));
        i += 1;
    }
    assert(agent@.take(i as int) =~= agent@);
    assert(reference@.take(i as int) =~= reference@);
    None
}

} // verus!
