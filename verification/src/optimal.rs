//! The optimal policy: on a miss into a full table, evict the page whose
//! next use lies farthest ahead in the trace.

use crate::access::{
    count_faults, distinct_pages, first_touch, lemma_fault_bounds, page_numbers, AccessResult, MemoryAccess,
    MissReplacement,
};
use vstd::prelude::*;

verus! {

/// The index of the first access to `page` at or after `from`, or the
/// trace's length if there is none.
pub open spec fn next_use(trace: Seq<MemoryAccess>, from: int, page: usize) -> int
    recommends
        0 <= from,
    decreases trace.len() - from,
{
    if from >= trace.len() {
        trace.len() as int
    } else if trace[from].frame_number == page {
        from
    } else {
        next_use(trace, from + 1, page)
    }
}

/// `next_use` is the least index from `from` on that holds `page`, and the
/// trace's length exactly when no such index exists.
pub proof fn lemma_next_use(trace: Seq<MemoryAccess>, from: int, page: usize)
    requires
        0 <= from <= trace.len(),
    ensures
        from <= next_use(trace, from, page) <= trace.len(),
        next_use(trace, from, page) < trace.len() ==> trace[next_use(trace, from, page)].frame_number == page,
        forall|k: int| from <= k < next_use(trace, from, page) ==> (#[trigger] trace[k]).frame_number != page,
    decreases trace.len() - from,
{
    if from < trace.len() && trace[from].frame_number != page {
        lemma_next_use(trace, from + 1, page);
    }
}

/// Whether frame `v` is the one to evict: no resident page is used later
/// than the page in `v`, and every page in an earlier frame is used sooner.
/// A page that is never used again counts as used at the trace's end.
pub open spec fn is_victim(pages: Seq<usize>, trace: Seq<MemoryAccess>, from: int, v: int) -> bool {
    &&& 0 <= v < pages.len()
    &&& forall|k: int|
        0 <= k < pages.len() ==> next_use(trace, from, #[trigger] pages[k]) <= next_use(trace, from, pages[v])
    &&& forall|k: int| 0 <= k < v ==> next_use(trace, from, #[trigger] pages[k]) < next_use(trace, from, pages[v])
}

/// The first frame among the first `n` whose page is used farthest ahead.
pub open spec fn farthest(pages: Seq<usize>, trace: Seq<MemoryAccess>, from: int, n: nat) -> int
    decreases n,
{
    if n <= 1 {
        0
    } else {
        let best = farthest(pages, trace, from, (n - 1) as nat);
        if next_use(trace, from, pages[n - 1]) > next_use(trace, from, pages[best]) {
            n - 1
        } else {
            best
        }
    }
}

/// The frame to evict from a full table when access `from - 1` misses.
pub open spec fn victim(pages: Seq<usize>, trace: Seq<MemoryAccess>, from: int) -> int {
    farthest(pages, trace, from, pages.len())
}

/// Among the first `n` frames, `farthest` is the victim.
proof fn lemma_farthest(pages: Seq<usize>, trace: Seq<MemoryAccess>, from: int, n: nat)
    requires
        1 <= n <= pages.len(),
    ensures
        is_victim(pages.take(n as int), trace, from, farthest(pages, trace, from, n)),
    decreases n,
{
    if n > 1 {
        lemma_farthest(pages, trace, from, (n - 1) as nat);
        let best = farthest(pages, trace, from, (n - 1) as nat);
        let shorter = pages.take(n - 1);
        let longer = pages.take(n as int);
        assert forall|k: int| 0 <= k < n - 1 implies shorter[k] == longer[k] by {}
        assert forall|k: int| 0 <= k < n - 1 implies next_use(trace, from, #[trigger] longer[k]) <= next_use(
            trace,
            from,
            pages[best],
        ) by {
            assert(longer[k] == shorter[k]);
        }
        assert forall|k: int| 0 <= k < best implies next_use(trace, from, #[trigger] longer[k]) < next_use(
            trace,
            from,
            pages[best],
        ) by {
            assert(longer[k] == shorter[k]);
        }
    }
}

/// A table with at least one page has exactly one victim.
pub proof fn lemma_victim(pages: Seq<usize>, trace: Seq<MemoryAccess>, from: int)
    requires
        pages.len() >= 1,
    ensures
        is_victim(pages, trace, from, victim(pages, trace, from)),
        forall|v: int| is_victim(pages, trace, from, v) ==> v == victim(pages, trace, from),
{
    lemma_farthest(pages, trace, from, pages.len());
    assert(pages.take(pages.len() as int) =~= pages);
    let w = victim(pages, trace, from);
    assert forall|v: int| is_victim(pages, trace, from, v) implies v == w by {
        if v < w {
            assert(next_use(trace, from, pages[v]) < next_use(trace, from, pages[w]));
            assert(next_use(trace, from, pages[w]) <= next_use(trace, from, pages[v]));
        } else if w < v {
            assert(next_use(trace, from, pages[w]) < next_use(trace, from, pages[v]));
            assert(next_use(trace, from, pages[v]) <= next_use(trace, from, pages[w]));
        }
    }
}

/// The policy's reaction to access `i` of `trace`: the next table and the
/// classification of the access.
pub open spec fn step(pages: Seq<usize>, capacity: usize, trace: Seq<MemoryAccess>, i: int) -> (
    Seq<usize>,
    AccessResult,
) {
    let page = trace[i].frame_number;
    if pages.contains(page) {
        (pages, AccessResult::Hit)
    } else if pages.len() < capacity {
        (pages.push(page), AccessResult::MissSimple)
    } else {
        let v = victim(pages, trace, i + 1);
        (
            pages.update(v, page),
            AccessResult::MissReplace(
                MissReplacement { replaced: pages[v], frame_index: v as usize, new_page: page },
            ),
        )
    }
}

/// What holds of the table between accesses: no more pages than frames and
/// no page resident twice.
pub open spec fn well_formed(pages: Seq<usize>, capacity: usize) -> bool {
    &&& capacity >= 1
    &&& pages.len() <= capacity
    &&& pages.no_duplicates()
}

/// The table after the first `n` accesses of `trace`, from an empty table.
pub open spec fn state_after(capacity: usize, trace: Seq<MemoryAccess>, n: nat) -> Seq<usize>
    decreases n,
{
    if n == 0 {
        Seq::empty()
    } else {
        step(state_after(capacity, trace, (n - 1) as nat), capacity, trace, n - 1).0
    }
}

/// The classification of access `i` of `trace`.
pub open spec fn result_at(capacity: usize, trace: Seq<MemoryAccess>, i: int) -> AccessResult {
    step(state_after(capacity, trace, i as nat), capacity, trace, i).1
}

/// The classifications of all accesses of `trace`, in order.
pub open spec fn simulate(capacity: usize, trace: Seq<MemoryAccess>) -> Seq<AccessResult> {
    Seq::new(trace.len(), |i: int| result_at(capacity, trace, i))
}

/// What one access does to a well-formed table.
///
/// The table stays well formed. The access is a hit exactly when its page is
/// resident, and a hit leaves the table as it is. A miss into free capacity
/// appends the page. A miss on a full table evicts the victim, a page that
/// was resident and differs from the new one; the new page takes its frame,
/// and the evicted page is resident no more.
pub proof fn lemma_step(pages: Seq<usize>, capacity: usize, trace: Seq<MemoryAccess>, i: int)
    requires
        well_formed(pages, capacity),
        0 <= i < trace.len(),
    ensures
        ({
            let (next, result) = step(pages, capacity, trace, i);
            let page = trace[i].frame_number;
            let resident = pages.contains(page);
            &&& well_formed(next, capacity)
            &&& next.contains(page)
            &&& result == AccessResult::Hit <==> resident
            &&& result == AccessResult::Hit ==> next == pages
            &&& result == AccessResult::MissSimple <==> !resident && pages.len() < capacity
            &&& result == AccessResult::MissSimple ==> next == pages.push(page)
            &&& result matches AccessResult::MissReplace(m) ==> {
                &&& m.new_page == page
                &&& m.replaced != m.new_page
                &&& is_victim(pages, trace, i + 1, m.frame_index as int)
                &&& pages[m.frame_index as int] == m.replaced
                &&& next == pages.update(m.frame_index as int, m.new_page)
                &&& !next.contains(m.replaced)
            }
        }),
{
    let (next, result) = step(pages, capacity, trace, i);
    let page = trace[i].frame_number;
    if pages.contains(page) {
    } else if pages.len() < capacity {
        assert(next[pages.len() as int] == page);
    } else {
        lemma_victim(pages, trace, i + 1);
        let v = victim(pages, trace, i + 1);
        assert(next[v] == page);
        assert(pages.contains(pages[v]));
    }
}

/// The table after `n` accesses is well formed and holds only pages that
/// the first `n` accesses touched.
pub proof fn lemma_state_after(capacity: usize, trace: Seq<MemoryAccess>, n: nat)
    requires
        capacity >= 1,
        n <= trace.len(),
    ensures
        well_formed(state_after(capacity, trace, n), capacity),
        forall|p: usize| #[trigger]
            state_after(capacity, trace, n).contains(p) ==> page_numbers(trace.take(n as int)).contains(p),
    decreases n,
{
    if n > 0 {
        let m = (n - 1) as nat;
        let before = state_after(capacity, trace, m);
        lemma_state_after(capacity, trace, m);
        lemma_step(before, capacity, trace, m as int);
        let after = state_after(capacity, trace, n);
        let seen = page_numbers(trace.take(n as int));
        assert(seen[m as int] == trace[m as int].frame_number);
        assert forall|p: usize| #[trigger] after.contains(p) implies seen.contains(p) by {
            if p != trace[m as int].frame_number {
                let j = choose|j: int| 0 <= j < after.len() && after[j] == p;
                assert(before.contains(p)) by {
                    match step(before, capacity, trace, m as int).1 {
                        AccessResult::Hit => {},
                        AccessResult::MissSimple => {
                            assert(before[j] == p);
                        },
                        AccessResult::MissReplace(_) => {
                            assert(before[j] == p);
                        },
                    }
                }
                let k = choose|k: int| 0 <= k < m && page_numbers(trace.take(m as int))[k] == p;
                assert(seen[k] == p);
            }
        }
    }
}

/// In a run, every eviction takes the victim, a page that was resident and
/// differs from the new one; the new page takes its frame, no other frame
/// changes its page, and the evicted page is resident no more.
pub proof fn lemma_eviction(capacity: usize, trace: Seq<MemoryAccess>, i: int)
    requires
        capacity >= 1,
        0 <= i < trace.len(),
    ensures
        result_at(capacity, trace, i) matches AccessResult::MissReplace(m) ==> {
            let before = state_after(capacity, trace, i as nat);
            let after = state_after(capacity, trace, (i + 1) as nat);
            &&& m.new_page == trace[i].frame_number
            &&& m.replaced != m.new_page
            &&& is_victim(before, trace, i + 1, m.frame_index as int)
            &&& before[m.frame_index as int] == m.replaced
            &&& after == before.update(m.frame_index as int, m.new_page)
            &&& !after.contains(m.replaced)
        },
{
    lemma_state_after(capacity, trace, i as nat);
    lemma_step(state_after(capacity, trace, i as nat), capacity, trace, i);
}

/// In a run, an access to a resident page is a hit and leaves the table as
/// it is.
pub proof fn lemma_hit(capacity: usize, trace: Seq<MemoryAccess>, i: int)
    requires
        capacity >= 1,
        0 <= i < trace.len(),
        state_after(capacity, trace, i as nat).contains(trace[i].frame_number),
    ensures
        result_at(capacity, trace, i) == AccessResult::Hit,
        state_after(capacity, trace, (i + 1) as nat) == state_after(capacity, trace, i as nat),
{
    lemma_state_after(capacity, trace, i as nat);
    lemma_step(state_after(capacity, trace, i as nat), capacity, trace, i);
}

/// Two runs over the same capacity and trace classify every access alike.
pub proof fn lemma_deterministic(
    capacity: usize,
    trace: Seq<MemoryAccess>,
    first: Seq<AccessResult>,
    second: Seq<AccessResult>,
)
    requires
        first == simulate(capacity, trace),
        second == simulate(capacity, trace),
    ensures
        first == second,
{
}

/// A run faults at most once per access and at least once per distinct page.
pub proof fn lemma_fault_count(capacity: usize, trace: Seq<MemoryAccess>)
    requires
        capacity >= 1,
    ensures
        count_faults(simulate(capacity, trace)) <= trace.len(),
        distinct_pages(trace).finite(),
        count_faults(simulate(capacity, trace)) >= distinct_pages(trace).len(),
{
    let results = simulate(capacity, trace);
    assert forall|i: int| 0 <= i < trace.len() && first_touch(trace, i) implies (#[trigger] results[i]).is_fault() by {
        lemma_state_after(capacity, trace, i as nat);
        lemma_step(state_after(capacity, trace, i as nat), capacity, trace, i);
    }
    lemma_fault_bounds(trace, results);
}

/// While the table has room and no page has come twice, every access is a
/// miss into free capacity.
pub proof fn lemma_capacity_saturation(capacity: usize, trace: Seq<MemoryAccess>, i: int)
    requires
        0 <= i < trace.len(),
        i < capacity,
        page_numbers(trace.take(i + 1)).no_duplicates(),
    ensures
        simulate(capacity, trace)[i] == AccessResult::MissSimple,
        state_after(capacity, trace, (i + 1) as nat) == page_numbers(trace.take(i + 1)),
    decreases i,
{
    let before = state_after(capacity, trace, i as nat);
    let prefix = page_numbers(trace.take(i + 1));
    if i > 0 {
        assert(page_numbers(trace.take(i)) =~= prefix.take(i));
        lemma_capacity_saturation(capacity, trace, i - 1);
    } else {
        assert(before =~= page_numbers(trace.take(0)));
    }
    lemma_state_after(capacity, trace, i as nat);
    lemma_step(before, capacity, trace, i);
    assert(!before.contains(trace[i].frame_number)) by {
        if before.contains(trace[i].frame_number) {
            let k = choose|k: int| 0 <= k < i && page_numbers(trace.take(i))[k] == trace[i].frame_number;
            assert(prefix[k] == prefix[i]);
        }
    }
    assert(page_numbers(trace.take(i)).push(trace[i].frame_number) =~= prefix);
}

/// Whether `page` is resident.
fn is_resident(pages: &Vec<usize>, page: usize) -> (found: bool)
    ensures
        found == pages@.contains(page),
{
    let mut i: usize = 0;
    while i < pages.len()
        invariant
            i <= pages@.len(),
            forall|j: int| 0 <= j < i ==> pages@[j] != page,
        decreases pages@.len() - i,
    {
        if pages[i] == page {
            return true;
        }
        i = i + 1;
    }
    false
}

/// The index of the first access to `page` from `from` on, or the trace's
/// length if the page is never used again.
fn find_next_use(accesses: &Vec<MemoryAccess>, from: usize, page: usize) -> (j: usize)
    requires
        from <= accesses@.len(),
    ensures
        j == next_use(accesses@, from as int, page),
{
    let mut j: usize = from;
    while j < accesses.len()
        invariant
            from <= j <= accesses@.len(),
            next_use(accesses@, from as int, page) == next_use(accesses@, j as int, page),
        decreases accesses@.len() - j,
    {
        if accesses[j].frame_number == page {
            return j;
        }
        j = j + 1;
    }
    j
}

/// Chooses the frame to evict: the first one whose page is never used from
/// `from` on, or else the one whose page is used last.
fn select_victim(pages: &Vec<usize>, accesses: &Vec<MemoryAccess>, from: usize) -> (index: usize)
    requires
        pages@.len() >= 1,
        from <= accesses@.len(),
    ensures
        index == victim(pages@, accesses@, from as int),
        is_victim(pages@, accesses@, from as int, index as int),
{
    let end: usize = accesses.len();
    let mut index: usize = 0;
    let mut latest: usize = find_next_use(accesses, from, pages[0]);
    let mut ii: usize = 1;
    proof {
        lemma_victim(pages@, accesses@, from as int);
    }
    while ii < pages.len() && latest < end
        invariant
            1 <= ii <= pages@.len(),
            end == accesses@.len(),
            from <= end,
            index < ii,
            index == farthest(pages@, accesses@, from as int, ii as nat),
            latest == next_use(accesses@, from as int, pages@[index as int]),
        decreases pages@.len() - ii,
    {
        let next: usize = find_next_use(accesses, from, pages[ii]);
        if next > latest {
            index = ii;
            latest = next;
        }
        ii = ii + 1;
    }
    proof {
        if ii < pages@.len() {
            lemma_farthest(pages@, accesses@, from as int, ii as nat);
            let shorter = pages@.take(ii as int);
            assert forall|k: int| 0 <= k < pages@.len() implies next_use(
                accesses@,
                from as int,
                #[trigger] pages@[k],
            ) <= latest by {
                lemma_next_use(accesses@, from as int, pages@[k]);
            }
            assert forall|k: int| 0 <= k < index implies next_use(accesses@, from as int, #[trigger] pages@[k])
                < latest by {
                assert(shorter[k] == pages@[k]);
                assert(shorter[index as int] == pages@[index as int]);
            }
            assert(is_victim(pages@, accesses@, from as int, index as int));
        }
    }
    index
}

/// Classifies access `i` of `accesses` and updates the table.
pub fn access_page(capacity: usize, accesses: &Vec<MemoryAccess>, i: usize, pages: &mut Vec<usize>) -> (result:
    AccessResult)
    requires
        well_formed(old(pages)@, capacity),
        i < accesses@.len(),
    ensures
        (final(pages)@, result) == step(old(pages)@, capacity, accesses@, i as int),
        well_formed(final(pages)@, capacity),
        old(pages)@.contains(accesses@[i as int].frame_number) ==> {
            &&& result == AccessResult::Hit
            &&& final(pages)@ == old(pages)@
        },
        result matches AccessResult::MissReplace(m) ==> {
            &&& m.replaced != m.new_page
            &&& old(pages)@.contains(m.replaced)
            &&& !final(pages)@.contains(m.replaced)
            &&& is_victim(old(pages)@, accesses@, i + 1, m.frame_index as int)
            &&& final(pages)@[m.frame_index as int] == m.new_page
        },
{
    proof {
        lemma_step(pages@, capacity, accesses@, i as int);
    }
    let page: usize = accesses[i].frame_number;
    if is_resident(pages, page) {
        AccessResult::Hit
    } else if pages.len() < capacity {
        pages.push(page);
        AccessResult::MissSimple
    } else {
        let end: usize = accesses.len();
        let index: usize = select_victim(pages, accesses, i + 1);
        let replaced: usize = pages[index];
        pages.set(index, page);
        AccessResult::MissReplace(MissReplacement::new(replaced, index, page))
    }
}

/// Runs the optimal policy over `accesses` with `total_physical_pages`
/// frames, from an empty table, and classifies every access in order.
pub fn process_page_requests(total_physical_pages: usize, accesses: Vec<MemoryAccess>, pages: Vec<usize>) -> (results:
    Vec<AccessResult>)
    requires
        total_physical_pages >= 1,
        pages@.len() == 0,
    ensures
        results@ == simulate(total_physical_pages, accesses@),
        results@.len() == accesses@.len(),
{
    let mut pages = pages;
    let mut results: Vec<AccessResult> = Vec::with_capacity(accesses.len());
    let mut i: usize = 0;
    assert(pages@ =~= Seq::empty());
    while i < accesses.len()
        invariant
            total_physical_pages >= 1,
            i <= accesses@.len(),
            results@.len() == i,
            pages@ == state_after(total_physical_pages, accesses@, i as nat),
            forall|k: int| 0 <= k < i ==> results@[k] == result_at(total_physical_pages, accesses@, k),
        decreases accesses@.len() - i,
    {
        proof {
            lemma_state_after(total_physical_pages, accesses@, i as nat);
        }
        let result = access_page(total_physical_pages, &accesses, i, &mut pages);
        results.push(result);
        i = i + 1;
    }
    assert(results@ =~= simulate(total_physical_pages, accesses@));
    results
}

} // verus!
