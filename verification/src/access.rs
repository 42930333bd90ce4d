//! The shared data model: accesses, their classification, and fault counting.

use vstd::prelude::*;

verus! {

/// The operation of one memory access.
#[derive(Debug, Clone, Copy, PartialEq, Eq, Structural)]
pub enum AccessType {
    Read,
    Write,
}

/// Which resident page left the table, from which slot, and which page took its place.
#[derive(Debug, Clone, Copy, PartialEq, Eq, Structural, PartialOrd)]
pub struct MissReplacement {
    pub replaced: usize,
    pub frame_index: usize,
    pub new_page: usize,
}

/// The classification of one access.
///
/// `MissSimple`: the page was absent and the table had a free frame.
/// `MissReplace`: the page was absent and a resident page was evicted for it.
/// `Hit`: the page was resident.
#[derive(Debug, Clone, Copy, PartialEq, Eq, Structural, PartialOrd)]
pub enum AccessResult {
    MissSimple,
    MissReplace(MissReplacement),
    Hit,
}

/// One access of a trace: an operation on a page.
#[derive(Debug, Clone, Copy, PartialEq, Eq, Structural)]
pub struct MemoryAccess {
    pub frame_number: usize,
    pub access_type: AccessType,
}

impl MissReplacement {
    pub fn new(replaced: usize, frame_index: usize, new_page: usize) -> (r: MissReplacement)
        ensures
            r == (MissReplacement { replaced, frame_index, new_page }),
    {
        MissReplacement { replaced, frame_index, new_page }
    }
}

impl AccessResult {
    /// A fault is any access that is not a hit.
    pub open spec fn is_fault(self) -> bool {
        self != AccessResult::Hit
    }
}

/// The number of faults among `results`.
pub open spec fn count_faults(results: Seq<AccessResult>) -> nat {
    results.filter(|r: AccessResult| r.is_fault()).len()
}

/// The page numbers of a trace, access by access.
pub open spec fn page_numbers(trace: Seq<MemoryAccess>) -> Seq<usize> {
    trace.map_values(|a: MemoryAccess| a.frame_number)
}

/// The set of pages that a trace touches.
pub open spec fn distinct_pages(trace: Seq<MemoryAccess>) -> Set<usize> {
    page_numbers(trace).to_set()
}

/// Whether access `i` of `trace` is the first one to its page.
pub open spec fn first_touch(trace: Seq<MemoryAccess>, i: int) -> bool {
    !page_numbers(trace.take(i)).contains(trace[i].frame_number)
}

/// If every first access to a page is a fault, there are at least as many
/// faults as distinct pages, and never more faults than accesses.
pub proof fn lemma_fault_bounds(trace: Seq<MemoryAccess>, results: Seq<AccessResult>)
    requires
        results.len() == trace.len(),
        forall|i: int| 0 <= i < trace.len() && first_touch(trace, i) ==> (#[trigger] results[i]).is_fault(),
    ensures
        count_faults(results) <= trace.len(),
        distinct_pages(trace).finite(),
        count_faults(results) >= distinct_pages(trace).len(),
    decreases trace.len(),
{
    let fault = |r: AccessResult| r.is_fault();
    vstd::seq_lib::seq_to_set_is_finite(page_numbers(trace));
    if trace.len() == 0 {
        assert(results.filter(fault).len() <= results.len()) by {
            results.lemma_filter_len(fault);
        }
        assert(distinct_pages(trace) =~= Set::empty());
    } else {
        let n = trace.len() - 1;
        let shorter = trace.drop_last();
        let earlier = results.drop_last();
        assert forall|i: int| 0 <= i < shorter.len() && first_touch(shorter, i) implies (#[trigger] earlier[i]).is_fault() by {
            assert(shorter.take(i) =~= trace.take(i));
            assert(results[i].is_fault());
        }
        lemma_fault_bounds(shorter, earlier);
        assert(earlier.push(results[n]) =~= results);
        earlier.lemma_filter_len_push(fault, results[n]);
        assert(page_numbers(shorter).push(trace[n].frame_number) =~= page_numbers(trace));
        page_numbers(shorter).lemma_push_to_set_commute(trace[n].frame_number);
        assert(distinct_pages(trace) =~= distinct_pages(shorter).insert(trace[n].frame_number));
        assert(shorter =~= trace.take(n));
        if distinct_pages(shorter).contains(trace[n].frame_number) {
            assert(distinct_pages(trace) =~= distinct_pages(shorter));
        } else {
            assert(first_touch(trace, n));
            assert(results[n].is_fault());
        }
    }
}

/// Counts the results that are not `Hit`.
pub fn get_total_faults(results: &Vec<AccessResult>) -> (n: usize)
    ensures
        n == count_faults(results@),
        n <= results@.len(),
{
    let ghost fault = |r: AccessResult| r.is_fault();
    let mut n: usize = 0;
    let mut i: usize = 0;
    while i < results.len()
        invariant
            i <= results@.len(),
            n <= i,
            fault == (|r: AccessResult| r.is_fault()),
            n == results@.take(i as int).filter(fault).len(),
        decreases results@.len() - i,
    {
        proof {
            results@.take(i as int).lemma_filter_len_push(fault, results@[i as int]);
            results@.lemma_take_succ_push(i as int);
        }
        match results[i] {
            AccessResult::Hit => {},
            _ => {
                n = n + 1;
            },
        }
        i = i + 1;
    }
    proof {
        assert(results@.take(i as int) =~= results@);
    }
    n
}

} // verus!
