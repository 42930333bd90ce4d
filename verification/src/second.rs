//! The second-chance policy: a queue of resident pages in order of arrival,
//! in which a referenced page at the front is spared once.

use crate::access::{
    count_faults, distinct_pages, first_touch, lemma_fault_bounds, page_numbers, AccessResult, MemoryAccess,
    MissReplacement,
};
use std::collections::VecDeque;
use vstd::prelude::*;

verus! {

/// A resident page with its reference bit.
#[derive(Debug, Clone, Copy, PartialEq, Eq, Structural)]
pub struct Page {
    pub number: usize,
    pub referenced: bool,
}

/// The page numbers of a queue, front first.
pub open spec fn numbers(queue: Seq<Page>) -> Seq<usize> {
    queue.map_values(|p: Page| p.number)
}

/// The queue with its front page moved to the back, its reference bit cleared.
pub open spec fn spare_front(queue: Seq<Page>) -> Seq<Page> {
    queue.drop_first().push(Page { number: queue[0].number, referenced: false })
}

/// The queue after at most `steps` referenced pages at its front were
/// spared, one after the other.
pub open spec fn give_chances(queue: Seq<Page>, steps: nat) -> Seq<Page>
    decreases steps,
{
    if steps == 0 || queue.len() == 0 || !queue[0].referenced {
        queue
    } else {
        give_chances(spare_front(queue), (steps - 1) as nat)
    }
}

/// The policy's reaction to one access: the next queue and the
/// classification of the access.
pub open spec fn step(queue: Seq<Page>, capacity: usize, access: MemoryAccess) -> (Seq<Page>, AccessResult) {
    let page = access.frame_number;
    match numbers(queue).index_of_first(page) {
        Some(k) => (queue.update(k, Page { number: queue[k].number, referenced: true }), AccessResult::Hit),
        None => if queue.len() < capacity {
            (queue.push(Page { number: page, referenced: true }), AccessResult::MissSimple)
        } else {
            let turned = give_chances(queue, queue.len());
            (
                turned.drop_first().push(Page { number: page, referenced: true }),
                AccessResult::MissReplace(
                    MissReplacement { replaced: turned[0].number, frame_index: 0, new_page: page },
                ),
            )
        },
    }
}

/// What holds of the queue between accesses: no more pages than frames and
/// no page resident twice.
pub open spec fn well_formed(queue: Seq<Page>, capacity: usize) -> bool {
    &&& capacity >= 1
    &&& queue.len() <= capacity
    &&& numbers(queue).no_duplicates()
}

/// The queue after the first `n` accesses of `trace`, from an empty queue.
pub open spec fn state_after(capacity: usize, trace: Seq<MemoryAccess>, n: nat) -> Seq<Page>
    decreases n,
{
    if n == 0 {
        Seq::empty()
    } else {
        step(state_after(capacity, trace, (n - 1) as nat), capacity, trace[n - 1]).0
    }
}

/// The classification of access `i` of `trace`.
pub open spec fn result_at(capacity: usize, trace: Seq<MemoryAccess>, i: int) -> AccessResult {
    step(state_after(capacity, trace, i as nat), capacity, trace[i]).1
}

/// The classifications of all accesses of `trace`, in order.
pub open spec fn simulate(capacity: usize, trace: Seq<MemoryAccess>) -> Seq<AccessResult> {
    Seq::new(trace.len(), |i: int| result_at(capacity, trace, i))
}

/// Sparing pages keeps the queue's length and the set of resident pages,
/// and makes no page resident twice.
pub proof fn lemma_give_chances(queue: Seq<Page>, steps: nat)
    ensures
        give_chances(queue, steps).len() == queue.len(),
        forall|p: usize| numbers(give_chances(queue, steps)).contains(p) <==> numbers(queue).contains(p),
        numbers(queue).no_duplicates() ==> numbers(give_chances(queue, steps)).no_duplicates(),
    decreases steps,
{
    if steps == 0 || queue.len() == 0 || !queue[0].referenced {
    } else {
        let turned = spare_front(queue);
        let last = queue.len() - 1;
        lemma_give_chances(turned, (steps - 1) as nat);
        assert forall|p: usize| numbers(turned).contains(p) <==> numbers(queue).contains(p) by {
            if numbers(turned).contains(p) {
                let j = choose|j: int| 0 <= j < turned.len() && numbers(turned)[j] == p;
                if j < last {
                    assert(numbers(queue)[j + 1] == p);
                } else {
                    assert(numbers(queue)[0] == p);
                }
            }
            if numbers(queue).contains(p) {
                let j = choose|j: int| 0 <= j < queue.len() && numbers(queue)[j] == p;
                if j == 0 {
                    assert(numbers(turned)[last] == p);
                } else {
                    assert(numbers(turned)[j - 1] == p);
                }
            }
        }
        if numbers(queue).no_duplicates() {
            assert forall|i: int, j: int| 0 <= i < turned.len() && 0 <= j < turned.len() && i != j implies numbers(
                turned,
            )[i] != numbers(turned)[j] by {
                let a = if i < last { i + 1 } else { 0 };
                let b = if j < last { j + 1 } else { 0 };
                assert(numbers(turned)[i] == numbers(queue)[a]);
                assert(numbers(turned)[j] == numbers(queue)[b]);
            }
        }
    }
}

/// The number of pages at the front of the queue, one after the other, that
/// have their reference bit.
pub open spec fn referenced_front(queue: Seq<Page>) -> nat
    decreases queue.len(),
{
    if queue.len() == 0 || !queue[0].referenced {
        0
    } else {
        1 + referenced_front(queue.drop_first())
    }
}

/// The pages of `queue` without their reference bits.
pub open spec fn cleared(queue: Seq<Page>) -> Seq<Page> {
    queue.map_values(|p: Page| Page { number: p.number, referenced: false })
}

/// The place in the queue of the page that a miss on a full queue evicts:
/// the first page without a reference bit, or the front page if every page
/// has one.
pub open spec fn victim(queue: Seq<Page>) -> int {
    if referenced_front(queue) < queue.len() {
        referenced_front(queue) as int
    } else {
        0
    }
}

/// The referenced front of a queue lies inside the queue, holds referenced
/// pages only and ends before a page without the bit; a page without the
/// bit, appended to the queue, does not lengthen it.
proof fn lemma_referenced_front(queue: Seq<Page>, page: Page)
    requires
        !page.referenced,
    ensures
        referenced_front(queue) <= queue.len(),
        referenced_front(queue.push(page)) == referenced_front(queue),
        forall|i: int| 0 <= i < referenced_front(queue) ==> (#[trigger] queue[i]).referenced,
        referenced_front(queue) < queue.len() ==> !queue[referenced_front(queue) as int].referenced,
    decreases queue.len(),
{
    if queue.len() == 0 || !queue[0].referenced {
    } else {
        let rest = queue.drop_first();
        lemma_referenced_front(rest, page);
        assert(queue.push(page).drop_first() =~= rest.push(page));
        assert forall|i: int| 0 <= i < referenced_front(queue) implies (#[trigger] queue[i]).referenced by {
            if i > 0 {
                assert(rest[i - 1].referenced);
            }
        }
    }
}

/// Sparing turns the queue by as many pages as its referenced front holds,
/// or by `steps` if that is less, and clears the bits of the pages turned.
proof fn lemma_give_chances_turns(queue: Seq<Page>, steps: nat)
    ensures
        ({
            let m = if referenced_front(queue) <= steps {
                referenced_front(queue) as int
            } else {
                steps as int
            };
            give_chances(queue, steps) == queue.skip(m) + cleared(queue.take(m))
        }),
    decreases steps,
{
    let front = Page { number: queue[0].number, referenced: false };
    lemma_referenced_front(queue, front);
    let m = if referenced_front(queue) <= steps {
        referenced_front(queue) as int
    } else {
        steps as int
    };
    if steps == 0 || queue.len() == 0 || !queue[0].referenced {
        assert(queue.skip(0) + cleared(queue.take(0)) =~= queue);
    } else {
        let turned = spare_front(queue);
        lemma_referenced_front(queue.drop_first(), front);
        lemma_give_chances_turns(turned, (steps - 1) as nat);
        assert(turned.skip(m - 1) + cleared(turned.take(m - 1)) =~= queue.skip(m) + cleared(queue.take(m)));
    }
}

/// Sparing at most once round brings the victim to the front: the pages
/// before it follow the others, without their reference bits.
pub proof fn lemma_second_chance(queue: Seq<Page>)
    requires
        queue.len() >= 1,
    ensures
        give_chances(queue, queue.len()) == queue.skip(referenced_front(queue) as int) + cleared(
            queue.take(referenced_front(queue) as int),
        ),
        give_chances(queue, queue.len())[0].number == queue[victim(queue)].number,
{
    lemma_referenced_front(queue, Page { number: 0, referenced: false });
    lemma_give_chances_turns(queue, queue.len());
}

/// What one access does to a well-formed queue.
///
/// The queue stays well formed. The access is a hit exactly when its page is
/// resident, and a hit moves no page. A miss into free capacity appends the
/// page. A miss on a full queue evicts the page that the sparing brought to
/// the front: it was resident, differs from the new page and is resident no
/// more; all other pages stay, and the new page joins them. The evicted
/// page is the first in the queue without a reference bit, or the front
/// page if every page has one.
pub proof fn lemma_step(queue: Seq<Page>, capacity: usize, access: MemoryAccess)
    requires
        well_formed(queue, capacity),
    ensures
        ({
            let (next, result) = step(queue, capacity, access);
            let page = access.frame_number;
            let resident = numbers(queue).contains(page);
            &&& well_formed(next, capacity)
            &&& numbers(next).contains(page)
            &&& result == AccessResult::Hit <==> resident
            &&& result == AccessResult::Hit ==> numbers(next) == numbers(queue)
            &&& result == AccessResult::MissSimple <==> !resident && queue.len() < capacity
            &&& result == AccessResult::MissSimple ==> numbers(next) == numbers(queue).push(page)
            &&& result matches AccessResult::MissReplace(m) ==> {
                &&& m.new_page == page
                &&& m.replaced != m.new_page
                &&& m.frame_index == 0
                &&& m.replaced == queue[victim(queue)].number
                &&& numbers(queue).contains(m.replaced)
                &&& !numbers(next).contains(m.replaced)
                &&& next.len() == queue.len()
                &&& forall|p: usize|
                    numbers(next).contains(p) <==> p == page || (p != m.replaced && numbers(queue).contains(p))
            }
        }),
{
    let (next, result) = step(queue, capacity, access);
    let page = access.frame_number;
    let ns = numbers(queue);
    ns.index_of_first_ensures(page);
    match ns.index_of_first(page) {
        Some(k) => {
            assert(numbers(next) =~= ns);
            assert(numbers(next)[k] == page);
        },
        None => {
            if queue.len() < capacity {
                assert(numbers(next) =~= ns.push(page));
                assert(numbers(next)[queue.len() as int] == page);
            } else {
                lemma_give_chances(queue, queue.len());
                let turned = give_chances(queue, queue.len());
                assert(turned[0].number == queue[victim(queue)].number) by {
                    lemma_second_chance(queue);
                }
                let ts = numbers(turned);
                let last = queue.len() - 1;
                assert(ts.contains(ts[0]));
                assert(numbers(next)[last] == page);
                assert forall|p: usize|
                    numbers(next).contains(p) <==> p == page || (p != ts[0] && ns.contains(p)) by {
                    if numbers(next).contains(p) && p != page {
                        let j = choose|j: int| 0 <= j < next.len() && numbers(next)[j] == p;
                        assert(ts[j + 1] == p);
                    }
                    if p != ts[0] && ns.contains(p) {
                        let j = choose|j: int| 0 <= j < ts.len() && ts[j] == p;
                        assert(numbers(next)[j - 1] == p);
                    }
                }
                assert forall|i: int, j: int| 0 <= i < next.len() && 0 <= j < next.len() && i != j implies numbers(
                    next,
                )[i] != numbers(next)[j] by {
                    if i < last {
                        assert(numbers(next)[i] == ts[i + 1]);
                    }
                    if j < last {
                        assert(numbers(next)[j] == ts[j + 1]);
                    }
                }
            }
        },
    }
}

/// The queue after `n` accesses is well formed and holds only pages that
/// the first `n` accesses touched.
pub proof fn lemma_state_after(capacity: usize, trace: Seq<MemoryAccess>, n: nat)
    requires
        capacity >= 1,
        n <= trace.len(),
    ensures
        well_formed(state_after(capacity, trace, n), capacity),
        forall|p: usize| #[trigger]
            numbers(state_after(capacity, trace, n)).contains(p) ==> page_numbers(trace.take(n as int)).contains(
                p,
            ),
    decreases n,
{
    if n > 0 {
        let m = (n - 1) as nat;
        let before = state_after(capacity, trace, m);
        lemma_state_after(capacity, trace, m);
        lemma_step(before, capacity, trace[m as int]);
        let after = state_after(capacity, trace, n);
        let seen = page_numbers(trace.take(n as int));
        assert(seen[m as int] == trace[m as int].frame_number);
        assert forall|p: usize| #[trigger] numbers(after).contains(p) implies seen.contains(p) by {
            if p != trace[m as int].frame_number {
                assert(numbers(before).contains(p)) by {
                    match step(before, capacity, trace[m as int]).1 {
                        AccessResult::Hit => {},
                        AccessResult::MissSimple => {
                            let j = choose|j: int| 0 <= j < after.len() && numbers(after)[j] == p;
                            assert(numbers(before)[j] == p);
                        },
                        AccessResult::MissReplace(_) => {},
                    }
                }
                let k = choose|k: int| 0 <= k < m && page_numbers(trace.take(m as int))[k] == p;
                assert(seen[k] == p);
            }
        }
    }
}

/// In a run, every eviction takes the victim from the front of the turned
/// queue: a page that was resident and differs from the new one. The evicted
/// page is resident no more, the new page is, and every other page stays.
pub proof fn lemma_eviction(capacity: usize, trace: Seq<MemoryAccess>, i: int)
    requires
        capacity >= 1,
        0 <= i < trace.len(),
    ensures
        result_at(capacity, trace, i) matches AccessResult::MissReplace(m) ==> {
            let before = state_after(capacity, trace, i as nat);
            let after = state_after(capacity, trace, (i + 1) as nat);
            &&& m.new_page == trace[i].frame_number
            &&& m.replaced != m.new_page
            &&& m.frame_index == 0
            &&& m.replaced == before[victim(before)].number
            &&& numbers(before).contains(m.replaced)
            &&& !numbers(after).contains(m.replaced)
            &&& after.len() == before.len()
            &&& forall|p: usize|
                numbers(after).contains(p) <==> p == m.new_page || (p != m.replaced && numbers(before).contains(p))
        },
{
    lemma_state_after(capacity, trace, i as nat);
    lemma_step(state_after(capacity, trace, i as nat), capacity, trace[i]);
}

/// In a run, an access to a resident page is a hit and moves no page.
pub proof fn lemma_hit(capacity: usize, trace: Seq<MemoryAccess>, i: int)
    requires
        capacity >= 1,
        0 <= i < trace.len(),
        numbers(state_after(capacity, trace, i as nat)).contains(trace[i].frame_number),
    ensures
        result_at(capacity, trace, i) == AccessResult::Hit,
        numbers(state_after(capacity, trace, (i + 1) as nat)) == numbers(state_after(capacity, trace, i as nat)),
{
    lemma_state_after(capacity, trace, i as nat);
    lemma_step(state_after(capacity, trace, i as nat), capacity, trace[i]);
}

/// Two runs over the same capacity and trace classify every access alike.
pub proof fn lemma_deterministic(
    capacity: usize,
    trace: Seq<MemoryAccess>,
    first: Seq<AccessResult>,
    second: Seq<AccessResult>,
)
    requires
        first == simulate(capacity, trace),
        second == simulate(capacity, trace),
    ensures
        first == second,
{
}

/// A run faults at most once per access and at least once per distinct page.
pub proof fn lemma_fault_count(capacity: usize, trace: Seq<MemoryAccess>)
    requires
        capacity >= 1,
    ensures
        count_faults(simulate(capacity, trace)) <= trace.len(),
        distinct_pages(trace).finite(),
        count_faults(simulate(capacity, trace)) >= distinct_pages(trace).len(),
{
    let results = simulate(capacity, trace);
    assert forall|i: int| 0 <= i < trace.len() && first_touch(trace, i) implies (#[trigger] results[i]).is_fault() by {
        lemma_state_after(capacity, trace, i as nat);
        lemma_step(state_after(capacity, trace, i as nat), capacity, trace[i]);
    }
    lemma_fault_bounds(trace, results);
}

/// While the queue has room and no page has come twice, every access is a
/// miss into free capacity.
pub proof fn lemma_capacity_saturation(capacity: usize, trace: Seq<MemoryAccess>, i: int)
    requires
        0 <= i < trace.len(),
        i < capacity,
        page_numbers(trace.take(i + 1)).no_duplicates(),
    ensures
        simulate(capacity, trace)[i] == AccessResult::MissSimple,
        numbers(state_after(capacity, trace, (i + 1) as nat)) == page_numbers(trace.take(i + 1)),
    decreases i,
{
    let before = state_after(capacity, trace, i as nat);
    let prefix = page_numbers(trace.take(i + 1));
    if i > 0 {
        assert(page_numbers(trace.take(i)) =~= prefix.take(i));
        lemma_capacity_saturation(capacity, trace, i - 1);
    } else {
        assert(numbers(before) =~= page_numbers(trace.take(0)));
    }
    lemma_state_after(capacity, trace, i as nat);
    lemma_step(before, capacity, trace[i]);
    assert(!numbers(before).contains(trace[i].frame_number)) by {
        if numbers(before).contains(trace[i].frame_number) {
            let k = choose|k: int| 0 <= k < i && page_numbers(trace.take(i))[k] == trace[i].frame_number;
            assert(prefix[k] == prefix[i]);
        }
    }
    assert(numbers(before).len() == i);
    assert(page_numbers(trace.take(i)).push(trace[i].frame_number) =~= prefix);
}

/// The place in the queue of page `page_num`, if it is resident.
pub fn contains_page(page_num: usize, collection: &VecDeque<Page>) -> (found: Option<usize>)
    ensures
        match found {
            Some(i) => {
                &&& i < collection@.len()
                &&& collection@[i as int].number == page_num
                &&& numbers(collection@).index_of_first(page_num) == Some(i as int)
            },
            None => {
                &&& numbers(collection@).index_of_first(page_num) is None
                &&& !numbers(collection@).contains(page_num)
            },
        },
{
    let mut i: usize = 0;
    while i < collection.len()
        invariant
            i <= collection@.len(),
            forall|j: int| 0 <= j < i ==> numbers(collection@)[j] != page_num,
        decreases collection@.len() - i,
    {
        if page_num == collection[i].number {
            proof {
                let ns = numbers(collection@);
                ns.index_of_first_ensures(page_num);
                assert(ns[i as int] == page_num);
                let first = ns.index_of_first(page_num);
                if first is Some && first != Some(i as int) {
                    let f = first->0;
                    if f < i {
                        assert(ns[f] != page_num);
                    } else {
                        assert(ns[i as int] != page_num);
                    }
                }
            }
            return Some(i);
        }
        i = i + 1;
    }
    proof {
        numbers(collection@).index_of_first_ensures(page_num);
    }
    None
}

/// Spares referenced pages at the front of a full queue, at most once round.
fn turn_queue(pages: &mut VecDeque<Page>)
    ensures
        final(pages)@ == give_chances(old(pages)@, old(pages)@.len()),
{
    let length: usize = pages.len();
    let ghost start = pages@;
    let mut turns: usize = 0;
    while turns < length && pages[0].referenced
        invariant
            turns <= length,
            pages@.len() == length,
            give_chances(start, length as nat) == give_chances(pages@, (length - turns) as nat),
        decreases length - turns,
    {
        let ghost queue = pages@;
        let front = pages.pop_front().unwrap();
        pages.push_back(Page { number: front.number, referenced: false });
        assert(pages@ =~= spare_front(queue));
        turns = turns + 1;
    }
}

/// Classifies one access and updates the queue.
pub fn access_page(capacity: usize, access: &MemoryAccess, pages: &mut VecDeque<Page>) -> (result: AccessResult)
    requires
        well_formed(old(pages)@, capacity),
    ensures
        (final(pages)@, result) == step(old(pages)@, capacity, *access),
        well_formed(final(pages)@, capacity),
        numbers(old(pages)@).contains(access.frame_number) ==> {
            &&& result == AccessResult::Hit
            &&& numbers(final(pages)@) == numbers(old(pages)@)
        },
        result matches AccessResult::MissReplace(m) ==> {
            &&& m.replaced != m.new_page
            &&& numbers(old(pages)@).contains(m.replaced)
            &&& !numbers(final(pages)@).contains(m.replaced)
            &&& numbers(final(pages)@).contains(m.new_page)
        },
{
    proof {
        lemma_step(pages@, capacity, *access);
    }
    let page: usize = access.frame_number;
    match contains_page(page, pages) {
        Some(k) => {
            let hit = pages.remove(k).unwrap();
            pages.insert(k, Page { number: hit.number, referenced: true });
            assert(pages@ =~= old(pages)@.update(k as int, Page { number: old(pages)@[k as int].number, referenced: true }));
            AccessResult::Hit
        },
        None => {
            if pages.len() < capacity {
                pages.push_back(Page { number: page, referenced: true });
                AccessResult::MissSimple
            } else {
                proof {
                    lemma_give_chances(pages@, pages@.len());
                }
                turn_queue(pages);
                let popped = pages.pop_front().unwrap();
                pages.push_back(Page { number: page, referenced: true });
                AccessResult::MissReplace(MissReplacement::new(popped.number, 0, page))
            }
        },
    }
}

/// Runs the second-chance policy over `accesses` with
/// `total_physical_pages` frames, from an empty queue, and classifies every
/// access in order.
pub fn process_page_requests(total_physical_pages: usize, accesses: Vec<MemoryAccess>, pages: VecDeque<Page>) -> (results:
    Vec<AccessResult>)
    requires
        total_physical_pages >= 1,
        pages@.len() == 0,
    ensures
        results@ == simulate(total_physical_pages, accesses@),
        results@.len() == accesses@.len(),
{
    let mut pages = pages;
    let mut results: Vec<AccessResult> = Vec::with_capacity(accesses.len());
    let mut i: usize = 0;
    assert(pages@ =~= Seq::empty());
    while i < accesses.len()
        invariant
            total_physical_pages >= 1,
            i <= accesses@.len(),
            results@.len() == i,
            pages@ == state_after(total_physical_pages, accesses@, i as nat),
            forall|k: int| 0 <= k < i ==> results@[k] == result_at(total_physical_pages, accesses@, k),
        decreases accesses@.len() - i,
    {
        proof {
            lemma_state_after(total_physical_pages, accesses@, i as nat);
        }
        let result = access_page(total_physical_pages, &accesses[i], &mut pages);
        results.push(result);
        i = i + 1;
    }
    assert(results@ =~= simulate(total_physical_pages, accesses@));
    results
}

} // verus!
