//! The working-set clock policy: reference bits, an age threshold and a
//! dirty bit, scanned by a clock hand that keeps its place between misses.

use crate::access::{
    count_faults, distinct_pages, first_touch, lemma_fault_bounds, page_numbers, AccessResult, AccessType,
    MemoryAccess, MissReplacement,
};
use crate::candidate::{Candidate, PageStatus};
use vstd::prelude::*;

verus! {

/// A resident page as the working-set clock tracks it.
#[derive(Debug, Clone, Copy, PartialEq, Eq, Structural)]
pub struct Page {
    pub number: usize,
    pub referenced: bool,
    pub is_dirty: bool,
    pub timestamp: usize,
}

/// The state the policy carries from one access to the next: the frame
/// table and the clock hand.
pub struct Clock {
    pub pages: Seq<Page>,
    pub pointer: int,
}

/// The state of one eviction scan: the table as the scan has changed it so
/// far, the clock hand, the best candidate seen, and the pages whose
/// write-back the scan has scheduled, each as it was when the hand met it.
pub struct Scan {
    pub pages: Seq<Page>,
    pub pointer: int,
    pub best: Candidate,
    pub written: Seq<Page>,
}

/// The page numbers of a table, frame by frame.
pub open spec fn numbers(pages: Seq<Page>) -> Seq<usize> {
    pages.map_values(|p: Page| p.number)
}

/// A resident page after it was accessed at time `clock`.
pub open spec fn touched(page: Page, access: MemoryAccess, clock: usize) -> Page {
    Page {
        number: page.number,
        referenced: true,
        is_dirty: page.is_dirty || access.access_type == AccessType::Write,
        timestamp: clock,
    }
}

/// The record of a page brought in by `access` at time `clock`.
pub open spec fn loaded(access: MemoryAccess, clock: usize) -> Page {
    Page {
        number: access.frame_number,
        referenced: true,
        is_dirty: access.access_type == AccessType::Write,
        timestamp: clock,
    }
}

/// The status of an unreferenced page at time `clock`: old when its age
/// exceeds `tau`, and dirty or clean by its dirty bit.
pub open spec fn status_of(page: Page, clock: usize, tau: usize) -> PageStatus {
    if clock - page.timestamp > tau {
        if page.is_dirty {
            PageStatus::OldAndDirty
        } else {
            PageStatus::OldAndClean
        }
    } else if page.is_dirty {
        PageStatus::Dirty
    } else {
        PageStatus::Clean
    }
}

/// The frame after `pointer` on a circular table of `len` frames.
pub open spec fn advance(pointer: int, len: int) -> int {
    if pointer + 1 >= len {
        0
    } else {
        pointer + 1
    }
}

/// One visit of the clock hand.
///
/// A referenced page loses its bit and the hand moves on. An unreferenced
/// page is ranked and replaces the best candidate if it outranks it; an old
/// clean page ends the scan with the hand on it, an old dirty page has its
/// write-back scheduled and its dirty bit cleared, and in every case but the
/// first the hand moves on.
pub open spec fn visit(s: Scan, clock: usize, tau: usize) -> Scan {
    let page = s.pages[s.pointer];
    let next = advance(s.pointer, s.pages.len() as int);
    if page.referenced {
        Scan {
            pages: s.pages.update(s.pointer, Page { referenced: false, ..page }),
            pointer: next,
            best: s.best,
            written: s.written,
        }
    } else {
        let seen = Candidate { index: s.pointer as usize, status: status_of(page, clock, tau) };
        let best = if seen.outranks(&s.best) {
            seen
        } else {
            s.best
        };
        match seen.status {
            PageStatus::OldAndClean => Scan { pages: s.pages, pointer: s.pointer, best, written: s.written },
            PageStatus::OldAndDirty => Scan {
                pages: s.pages.update(s.pointer, Page { is_dirty: false, ..page }),
                pointer: next,
                best,
                written: s.written.push(page),
            },
            _ => Scan { pages: s.pages, pointer: next, best, written: s.written },
        }
    }
}

/// At most `steps` visits, ending early once an old clean page is the best
/// candidate.
pub open spec fn sweep(s: Scan, clock: usize, tau: usize, steps: nat) -> Scan
    decreases steps,
{
    if steps == 0 || s.best.status == PageStatus::OldAndClean {
        s
    } else {
        sweep(visit(s, clock, tau), clock, tau, (steps - 1) as nat)
    }
}

/// A scan that has seen nothing yet, with the hand where the last scan left it.
pub open spec fn scan_start(c: Clock) -> Scan {
    Scan {
        pages: c.pages,
        pointer: c.pointer,
        best: Candidate { index: c.pointer as usize, status: PageStatus::Nothing },
        written: Seq::empty(),
    }
}

/// The eviction scan over a full table: one rotation from the clock hand,
/// and a second one if the first found every page referenced.
pub open spec fn scan(c: Clock, clock: usize, tau: usize) -> Scan {
    let start = scan_start(c);
    let first = sweep(start, clock, tau, c.pages.len());
    if first.best.status == PageStatus::Nothing {
        sweep(first, clock, tau, c.pages.len())
    } else {
        first
    }
}

/// The policy's reaction to one access at time `clock`: the next state and
/// the classification of the access.
pub open spec fn step(c: Clock, tau: usize, capacity: usize, clock: usize, access: MemoryAccess) -> (
    Clock,
    AccessResult,
) {
    match numbers(c.pages).index_of_first(access.frame_number) {
        Some(k) => (
            Clock { pages: c.pages.update(k, touched(c.pages[k], access, clock)), pointer: c.pointer },
            AccessResult::Hit,
        ),
        None => if c.pages.len() < capacity {
            (
                Clock { pages: c.pages.push(loaded(access, clock)), pointer: c.pointer },
                AccessResult::MissSimple,
            )
        } else {
            let s = scan(c, clock, tau);
            let victim = s.best.index as int;
            (
                Clock { pages: s.pages.update(victim, loaded(access, clock)), pointer: s.pointer },
                AccessResult::MissReplace(
                    MissReplacement {
                        replaced: s.pages[victim].number,
                        frame_index: s.best.index,
                        new_page: access.frame_number,
                    },
                ),
            )
        },
    }
}

/// The write-backs that the access at time `clock` schedules, in order: on
/// a miss into a full table, every old dirty page that the scan met, and
/// then the evicted page if it leaves dirty.
pub open spec fn write_backs(c: Clock, tau: usize, capacity: usize, clock: usize, access: MemoryAccess) -> Seq<
    Page,
> {
    if numbers(c.pages).index_of_first(access.frame_number) is Some || c.pages.len() < capacity {
        Seq::empty()
    } else {
        let s = scan(c, clock, tau);
        let evicted = s.pages[s.best.index as int];
        if evicted.is_dirty {
            s.written.push(evicted)
        } else {
            s.written
        }
    }
}

/// What holds of the policy's state before the access at time `clock`: no
/// more pages than frames, no page resident twice, no page touched later
/// than now, and the clock hand on a frame of the table.
pub open spec fn well_formed(c: Clock, capacity: usize, clock: int) -> bool {
    &&& capacity >= 1
    &&& c.pages.len() <= capacity
    &&& numbers(c.pages).no_duplicates()
    &&& forall|i: int| 0 <= i < c.pages.len() ==> (#[trigger] c.pages[i]).timestamp <= clock
    &&& 0 <= c.pointer
    &&& c.pointer < c.pages.len() || c.pointer == 0
}

/// The state after the first `n` accesses of `trace`, from an empty table.
pub open spec fn state_after(tau: usize, capacity: usize, trace: Seq<MemoryAccess>, n: nat) -> Clock
    decreases n,
{
    if n == 0 {
        Clock { pages: Seq::empty(), pointer: 0 }
    } else {
        step(
            state_after(tau, capacity, trace, (n - 1) as nat),
            tau,
            capacity,
            (n - 1) as usize,
            trace[n - 1],
        ).0
    }
}

/// The classification of access `i` of `trace`.
pub open spec fn result_at(tau: usize, capacity: usize, trace: Seq<MemoryAccess>, i: int) -> AccessResult {
    step(state_after(tau, capacity, trace, i as nat), tau, capacity, i as usize, trace[i]).1
}

/// The classifications of all accesses of `trace`, in order.
pub open spec fn simulate(tau: usize, capacity: usize, trace: Seq<MemoryAccess>) -> Seq<AccessResult> {
    Seq::new(trace.len(), |i: int| result_at(tau, capacity, trace, i))
}

/// The write-backs that the first `n` accesses of `trace` schedule, in order.
pub open spec fn write_backs_until(tau: usize, capacity: usize, trace: Seq<MemoryAccess>, n: nat) -> Seq<Page>
    decreases n,
{
    if n == 0 {
        Seq::empty()
    } else {
        write_backs_until(tau, capacity, trace, (n - 1) as nat) + write_backs(
            state_after(tau, capacity, trace, (n - 1) as nat),
            tau,
            capacity,
            (n - 1) as usize,
            trace[n - 1],
        )
    }
}

/// What a scan keeps: the table's length, every page's number and
/// timestamp, and both the hand and the best candidate on a frame. A scan
/// sets no bit, and its best candidate never falls in rank.
pub open spec fn scan_keeps(before: Scan, after: Scan) -> bool {
    &&& after.pages.len() == before.pages.len()
    &&& 0 <= after.pointer < after.pages.len()
    &&& after.best.index < after.pages.len()
    &&& after.best.status.rank() >= before.best.status.rank()
    &&& forall|i: int|
        0 <= i < before.pages.len() ==> {
            &&& (#[trigger] after.pages[i]).number == before.pages[i].number
            &&& after.pages[i].timestamp == before.pages[i].timestamp
            &&& after.pages[i].referenced ==> before.pages[i].referenced
            &&& after.pages[i].is_dirty ==> before.pages[i].is_dirty
        }
}

/// Whether the best candidate of a scan describes the page in its frame: the
/// page has no reference bit, it is ranked old exactly when its age exceeds
/// `tau`, and it is dirty exactly when it is ranked dirty inside the working
/// set (an old dirty page has been cleaned by its scheduled write-back).
pub open spec fn candidate_fits(s: Scan, clock: usize, tau: usize) -> bool {
    let page = s.pages[s.best.index as int];
    s.best.status != PageStatus::Nothing ==> {
        &&& !page.referenced
        &&& s.best.status.rank() >= 3 <==> clock - page.timestamp > tau
        &&& page.is_dirty <==> s.best.status == PageStatus::Dirty
    }
}

/// The frame that the hand reaches from `pointer` in `steps` moves, on a
/// circular table of `len` frames.
spec fn wrap(pointer: int, steps: int, len: int) -> int {
    if pointer + steps >= len {
        pointer + steps - len
    } else {
        pointer + steps
    }
}

/// A sweep keeps what a scan keeps, and a candidate that describes its page
/// still does so after the sweep.
proof fn lemma_sweep_keeps(s: Scan, clock: usize, tau: usize, steps: nat)
    requires
        0 <= s.pointer < s.pages.len() <= usize::MAX,
        s.best.index < s.pages.len(),
    ensures
        scan_keeps(s, sweep(s, clock, tau, steps)),
        candidate_fits(s, clock, tau) ==> candidate_fits(sweep(s, clock, tau, steps), clock, tau),
    decreases steps,
{
    if steps == 0 || s.best.status == PageStatus::OldAndClean {
    } else {
        let v = visit(s, clock, tau);
        assert(scan_keeps(s, v));
        assert(candidate_fits(s, clock, tau) ==> candidate_fits(v, clock, tau));
        lemma_sweep_keeps(v, clock, tau, (steps - 1) as nat);
    }
}

/// A sweep that ends without a candidate has met referenced pages only: the
/// hand has made every one of its moves, and the frame it started on has
/// lost its bit.
proof fn lemma_sweep_without_candidate(s: Scan, clock: usize, tau: usize, steps: nat)
    requires
        0 <= s.pointer < s.pages.len() <= usize::MAX,
        s.best.index < s.pages.len(),
        steps <= s.pages.len(),
    ensures
        sweep(s, clock, tau, steps).best.status == PageStatus::Nothing ==> {
            &&& sweep(s, clock, tau, steps).pointer == wrap(s.pointer, steps as int, s.pages.len() as int)
            &&& steps >= 1 ==> !sweep(s, clock, tau, steps).pages[s.pointer].referenced
        },
    decreases steps,
{
    if steps == 0 || s.best.status == PageStatus::OldAndClean {
    } else {
        let v = visit(s, clock, tau);
        lemma_sweep_without_candidate(v, clock, tau, (steps - 1) as nat);
        lemma_sweep_keeps(v, clock, tau, (steps - 1) as nat);
        assert(scan_keeps(s, v));
    }
}

/// A scan keeps the table's length and page numbers and leaves the hand and
/// the chosen frame inside the table.
pub proof fn lemma_scan_keeps(c: Clock, clock: usize, tau: usize)
    requires
        0 <= c.pointer < c.pages.len(),
        c.pages.len() <= usize::MAX,
    ensures
        scan_keeps(scan_start(c), scan(c, clock, tau)),
        numbers(scan(c, clock, tau).pages) == numbers(c.pages),
{
    let start = scan_start(c);
    lemma_sweep_keeps(start, clock, tau, c.pages.len());
    let first = sweep(start, clock, tau, c.pages.len());
    lemma_sweep_keeps(first, clock, tau, c.pages.len());
    assert(numbers(scan(c, clock, tau).pages) =~= numbers(c.pages));
}

/// The scan of a table with at least one page always finds a page to evict,
/// and its candidate describes that page: it has lost its reference bit, is
/// ranked old exactly when its age exceeds `tau`, and leaves dirty exactly
/// when it was ranked dirty inside the working set.
pub proof fn lemma_scan_finds(c: Clock, clock: usize, tau: usize)
    requires
        0 <= c.pointer < c.pages.len(),
        c.pages.len() <= usize::MAX,
    ensures
        scan(c, clock, tau).best.status != PageStatus::Nothing,
        candidate_fits(scan(c, clock, tau), clock, tau),
{
    let start = scan_start(c);
    let len = c.pages.len();
    lemma_sweep_keeps(start, clock, tau, len);
    lemma_sweep_without_candidate(start, clock, tau, len);
    let first = sweep(start, clock, tau, len);
    if first.best.status == PageStatus::Nothing {
        let v = visit(first, clock, tau);
        assert(first.pointer == c.pointer);
        assert(v.best.status != PageStatus::Nothing);
        assert(candidate_fits(v, clock, tau));
        lemma_sweep_keeps(v, clock, tau, (len - 1) as nat);
        assert(sweep(first, clock, tau, len) == sweep(v, clock, tau, (len - 1) as nat));
    }
}

/// How many moves the hand needs from frame `hand` to frame `frame`, on a
/// circular table of `len` frames.
pub open spec fn turn(hand: int, frame: int, len: int) -> int {
    if frame >= hand {
        frame - hand
    } else {
        frame - hand + len
    }
}

/// The pages of a table without their reference bits.
pub open spec fn cleared(pages: Seq<Page>) -> Seq<Page> {
    pages.map_values(|p: Page| Page { referenced: false, ..p })
}

/// Whether frame `v` holds, among the pages of `pages` without a reference
/// bit, one of the highest status, and is the first such frame that the
/// hand reaches from `hand`.
pub open spec fn first_of_highest_rank(pages: Seq<Page>, hand: int, clock: usize, tau: usize, v: int) -> bool {
    &&& 0 <= v < pages.len()
    &&& !pages[v].referenced
    &&& forall|j: int|
        0 <= j < pages.len() && !(#[trigger] pages[j]).referenced ==> {
            let mine = status_of(pages[v], clock, tau).rank();
            let other = status_of(pages[j], clock, tau).rank();
            other < mine || (other == mine && turn(hand, v, pages.len() as int) <= turn(
                hand,
                j,
                pages.len() as int,
            ))
        }
}

/// Whether frame `v` is the one that a scan of `c` evicts: the first frame
/// from the hand on with the highest status among the pages without a
/// reference bit, or among all pages if every page has one.
pub open spec fn is_victim(c: Clock, clock: usize, tau: usize, v: int) -> bool {
    if exists|j: int| 0 <= j < c.pages.len() && !(#[trigger] c.pages[j]).referenced {
        first_of_highest_rank(c.pages, c.pointer, clock, tau, v)
    } else {
        first_of_highest_rank(cleared(c.pages), c.pointer, clock, tau, v)
    }
}

/// What holds of a sweep that began on the table `start` with the hand on
/// `hand` and has made `k` visits: frames not yet visited are as they were;
/// without a candidate, every visited page had its reference bit and has
/// lost it; with one, the candidate is the first of the highest status among
/// the visited pages that had no reference bit.
spec fn swept(s: Scan, start: Seq<Page>, hand: int, k: nat, clock: usize, tau: usize) -> bool {
    let n = start.len() as int;
    &&& s.pages.len() == n
    &&& 0 <= hand < n
    &&& k <= n
    &&& 0 <= s.pointer < n
    &&& s.best.index < n
    &&& s.best.status != PageStatus::OldAndClean ==> s.pointer == wrap(hand, k as int, n)
    &&& forall|j: int| 0 <= j < n && turn(hand, j, n) >= k ==> s.pages[j] == #[trigger] start[j]
    &&& s.best.status == PageStatus::Nothing ==> forall|j: int|
        0 <= j < n && turn(hand, j, n) < k ==> (#[trigger] start[j]).referenced && s.pages[j] == (Page {
            referenced: false,
            ..start[j]
        })
    &&& s.best.status != PageStatus::Nothing ==> {
        let b = s.best.index as int;
        &&& turn(hand, b, n) < k
        &&& !start[b].referenced
        &&& s.best.status == status_of(start[b], clock, tau)
        &&& forall|j: int|
            0 <= j < n && turn(hand, j, n) < k && !(#[trigger] start[j]).referenced ==> {
                let other = status_of(start[j], clock, tau).rank();
                other < s.best.status.rank() || (other == s.best.status.rank() && turn(hand, b, n) <= turn(
                    hand,
                    j,
                    n,
                ))
            }
    }
}

/// A sweep that visits every frame it has not yet visited, or stops at an
/// old clean page, ends on the first page of the highest status among those
/// that had no reference bit; without such a page it clears every bit and
/// brings the hand back to where it began.
proof fn lemma_sweep_picks(
    s: Scan,
    start: Seq<Page>,
    hand: int,
    k: nat,
    clock: usize,
    tau: usize,
    steps: nat,
)
    requires
        swept(s, start, hand, k, clock, tau),
        k + steps == start.len(),
        start.len() <= usize::MAX,
    ensures
        ({
            let r = sweep(s, clock, tau, steps);
            &&& r.best.status != PageStatus::Nothing ==> {
                &&& first_of_highest_rank(start, hand, clock, tau, r.best.index as int)
                &&& r.best.status == status_of(start[r.best.index as int], clock, tau)
            }
            &&& r.best.status == PageStatus::Nothing ==> {
                &&& r.pointer == hand
                &&& r.pages == cleared(start)
                &&& forall|j: int| 0 <= j < start.len() ==> (#[trigger] start[j]).referenced
            }
        }),
    decreases steps,
{
    let n = start.len() as int;
    if steps == 0 || s.best.status == PageStatus::OldAndClean {
        if s.best.status == PageStatus::Nothing {
            assert(s.pages =~= cleared(start));
        }
    } else {
        let v = visit(s, clock, tau);
        let f = s.pointer;
        assert(turn(hand, f, n) == k);
        assert(s.pages[f] == start[f]);
        assert(swept(v, start, hand, k + 1, clock, tau));
        lemma_sweep_picks(v, start, hand, k + 1, clock, tau, (steps - 1) as nat);
    }
}

/// The scan of a table with at least one page evicts the victim, and ranks
/// it by the status that its page had when the scan began.
pub proof fn lemma_scan_victim(c: Clock, clock: usize, tau: usize)
    requires
        0 <= c.pointer < c.pages.len(),
        c.pages.len() <= usize::MAX,
    ensures
        is_victim(c, clock, tau, scan(c, clock, tau).best.index as int),
        scan(c, clock, tau).best.status == status_of(
            c.pages[scan(c, clock, tau).best.index as int],
            clock,
            tau,
        ),
{
    let start = scan_start(c);
    let len = c.pages.len();
    lemma_scan_finds(c, clock, tau);
    assert(swept(start, c.pages, c.pointer, 0, clock, tau));
    lemma_sweep_picks(start, c.pages, c.pointer, 0, clock, tau, len);
    let first = sweep(start, clock, tau, len);
    lemma_sweep_keeps(start, clock, tau, len);
    if first.best.status == PageStatus::Nothing {
        assert(swept(first, first.pages, c.pointer, 0, clock, tau));
        lemma_sweep_picks(first, first.pages, c.pointer, 0, clock, tau, len);
    } else {
        let b = first.best.index as int;
        assert(!c.pages[b].referenced);
    }
}

/// What one access does to a well-formed state.
///
/// The state stays well formed. The access is a hit exactly when its page is
/// resident, and a hit moves neither a page nor the clock hand. A miss into
/// free capacity appends the page. A miss on a full table evicts a page that
/// was resident and differs from the new one: the victim of the scan. The
/// new page takes its frame, and the evicted page is resident no more.
pub proof fn lemma_step(c: Clock, tau: usize, capacity: usize, clock: usize, access: MemoryAccess)
    requires
        well_formed(c, capacity, clock as int),
    ensures
        ({
            let (next, result) = step(c, tau, capacity, clock, access);
            let page = access.frame_number;
            let resident = numbers(c.pages).contains(page);
            &&& well_formed(next, capacity, clock + 1)
            &&& numbers(next.pages).contains(page)
            &&& result == AccessResult::Hit <==> resident
            &&& result == AccessResult::Hit ==> numbers(next.pages) == numbers(c.pages) && next.pointer
                == c.pointer
            &&& result == AccessResult::MissSimple <==> !resident && c.pages.len() < capacity
            &&& result == AccessResult::MissSimple ==> numbers(next.pages) == numbers(c.pages).push(page)
                && next.pointer == c.pointer
            &&& result matches AccessResult::MissReplace(m) ==> {
                &&& m.new_page == page
                &&& m.replaced != m.new_page
                &&& m.frame_index < c.pages.len()
                &&& is_victim(c, clock, tau, m.frame_index as int)
                &&& numbers(c.pages)[m.frame_index as int] == m.replaced
                &&& numbers(next.pages) == numbers(c.pages).update(m.frame_index as int, m.new_page)
                &&& !numbers(next.pages).contains(m.replaced)
            }
        }),
{
    let (next, result) = step(c, tau, capacity, clock, access);
    let page = access.frame_number;
    let ns = numbers(c.pages);
    ns.index_of_first_ensures(page);
    match ns.index_of_first(page) {
        Some(k) => {
            assert(numbers(next.pages) =~= ns);
            assert(numbers(next.pages)[k] == page);
        },
        None => {
            if c.pages.len() < capacity {
                assert(numbers(next.pages) =~= ns.push(page));
                assert(numbers(next.pages)[c.pages.len() as int] == page);
            } else {
                lemma_scan_keeps(c, clock, tau);
                lemma_scan_victim(c, clock, tau);
                let s = scan(c, clock, tau);
                let victim = s.best.index as int;
                assert(numbers(next.pages) =~= ns.update(victim, page));
                assert(numbers(next.pages)[victim] == page);
                assert(ns[victim] == s.pages[victim].number);
                assert(ns.contains(ns[victim]));
            }
        },
    }
}

/// The table after `n` accesses is well formed and holds only pages that
/// the first `n` accesses touched.
pub proof fn lemma_state_after(tau: usize, capacity: usize, trace: Seq<MemoryAccess>, n: nat)
    requires
        capacity >= 1,
        n <= trace.len() <= usize::MAX,
    ensures
        well_formed(state_after(tau, capacity, trace, n), capacity, n as int),
        forall|p: usize| #[trigger]
            numbers(state_after(tau, capacity, trace, n).pages).contains(p) ==> page_numbers(
                trace.take(n as int),
            ).contains(p),
    decreases n,
{
    if n > 0 {
        let m = (n - 1) as nat;
        let before = state_after(tau, capacity, trace, m);
        lemma_state_after(tau, capacity, trace, m);
        lemma_step(before, tau, capacity, m as usize, trace[m as int]);
        let after = state_after(tau, capacity, trace, n);
        let seen = page_numbers(trace.take(n as int));
        assert(seen[m as int] == trace[m as int].frame_number);
        assert forall|p: usize| #[trigger] numbers(after.pages).contains(p) implies seen.contains(p) by {
            if p != trace[m as int].frame_number {
                let j = choose|j: int| 0 <= j < after.pages.len() && numbers(after.pages)[j] == p;
                assert(numbers(before.pages).contains(p)) by {
                    let r = step(before, tau, capacity, m as usize, trace[m as int]).1;
                    match r {
                        AccessResult::Hit => {},
                        AccessResult::MissSimple => {
                            assert(numbers(before.pages)[j] == p);
                        },
                        AccessResult::MissReplace(_) => {
                            assert(numbers(before.pages)[j] == p);
                        },
                    }
                }
                let k = choose|k: int| 0 <= k < m && page_numbers(trace.take(m as int))[k] == p;
                assert(seen[k] == p);
            }
        }
    }
}

/// In a run, every eviction takes the victim of the scan, a page that was
/// resident and differs from the new one; the new page takes its frame, no
/// other frame changes its page, and the evicted page is resident no more.
pub proof fn lemma_eviction(tau: usize, capacity: usize, trace: Seq<MemoryAccess>, i: int)
    requires
        capacity >= 1,
        0 <= i < trace.len() <= usize::MAX,
    ensures
        result_at(tau, capacity, trace, i) matches AccessResult::MissReplace(m) ==> {
            let before = numbers(state_after(tau, capacity, trace, i as nat).pages);
            let after = numbers(state_after(tau, capacity, trace, (i + 1) as nat).pages);
            &&& m.new_page == trace[i].frame_number
            &&& m.replaced != m.new_page
            &&& m.frame_index < before.len()
            &&& is_victim(state_after(tau, capacity, trace, i as nat), i as usize, tau, m.frame_index as int)
            &&& before[m.frame_index as int] == m.replaced
            &&& after == before.update(m.frame_index as int, m.new_page)
            &&& !after.contains(m.replaced)
        },
{
    lemma_state_after(tau, capacity, trace, i as nat);
    lemma_step(state_after(tau, capacity, trace, i as nat), tau, capacity, i as usize, trace[i]);
}

/// In a run, an access to a resident page is a hit, and it moves neither a
/// page nor the clock hand.
pub proof fn lemma_hit(tau: usize, capacity: usize, trace: Seq<MemoryAccess>, i: int)
    requires
        capacity >= 1,
        0 <= i < trace.len() <= usize::MAX,
        numbers(state_after(tau, capacity, trace, i as nat).pages).contains(trace[i].frame_number),
    ensures
        result_at(tau, capacity, trace, i) == AccessResult::Hit,
        numbers(state_after(tau, capacity, trace, (i + 1) as nat).pages) == numbers(
            state_after(tau, capacity, trace, i as nat).pages,
        ),
        state_after(tau, capacity, trace, (i + 1) as nat).pointer == state_after(
            tau,
            capacity,
            trace,
            i as nat,
        ).pointer,
{
    lemma_state_after(tau, capacity, trace, i as nat);
    lemma_step(state_after(tau, capacity, trace, i as nat), tau, capacity, i as usize, trace[i]);
}

/// Two runs over the same threshold, capacity and trace classify every
/// access alike.
pub proof fn lemma_deterministic(
    tau: usize,
    capacity: usize,
    trace: Seq<MemoryAccess>,
    first: Seq<AccessResult>,
    second: Seq<AccessResult>,
)
    requires
        first == simulate(tau, capacity, trace),
        second == simulate(tau, capacity, trace),
    ensures
        first == second,
{
}

/// A run faults at most once per access and at least once per distinct page.
pub proof fn lemma_fault_count(tau: usize, capacity: usize, trace: Seq<MemoryAccess>)
    requires
        capacity >= 1,
        trace.len() <= usize::MAX,
    ensures
        count_faults(simulate(tau, capacity, trace)) <= trace.len(),
        distinct_pages(trace).finite(),
        count_faults(simulate(tau, capacity, trace)) >= distinct_pages(trace).len(),
{
    let results = simulate(tau, capacity, trace);
    assert forall|i: int| 0 <= i < trace.len() && first_touch(trace, i) implies (#[trigger] results[i]).is_fault() by {
        lemma_state_after(tau, capacity, trace, i as nat);
        lemma_step(state_after(tau, capacity, trace, i as nat), tau, capacity, i as usize, trace[i]);
    }
    lemma_fault_bounds(trace, results);
}

/// While the table has room and no page has come twice, every access is a
/// miss into free capacity.
pub proof fn lemma_capacity_saturation(tau: usize, capacity: usize, trace: Seq<MemoryAccess>, i: int)
    requires
        0 <= i < trace.len() <= usize::MAX,
        i < capacity,
        page_numbers(trace.take(i + 1)).no_duplicates(),
    ensures
        simulate(tau, capacity, trace)[i] == AccessResult::MissSimple,
        numbers(state_after(tau, capacity, trace, (i + 1) as nat).pages) == page_numbers(trace.take(i + 1)),
    decreases i,
{
    let before = state_after(tau, capacity, trace, i as nat);
    let prefix = page_numbers(trace.take(i + 1));
    if i > 0 {
        assert(page_numbers(trace.take(i)) =~= prefix.take(i));
        lemma_capacity_saturation(tau, capacity, trace, i - 1);
    } else {
        assert(numbers(before.pages) =~= page_numbers(trace.take(0)));
    }
    lemma_state_after(tau, capacity, trace, i as nat);
    lemma_step(before, tau, capacity, i as usize, trace[i]);
    assert(!numbers(before.pages).contains(trace[i].frame_number)) by {
        if numbers(before.pages).contains(trace[i].frame_number) {
            let k = choose|k: int| 0 <= k < i && page_numbers(trace.take(i))[k] == trace[i].frame_number;
            assert(prefix[k] == prefix[i]);
        }
    }
    assert(numbers(before.pages).len() == i);
    assert(page_numbers(trace.take(i)).push(trace[i].frame_number) =~= prefix);
}

/// The frame that holds page `page_num`, if it is resident.
pub fn contains_page(page_num: usize, collection: &Vec<Page>) -> (found: Option<usize>)
    ensures
        match found {
            Some(i) => {
                &&& i < collection@.len()
                &&& collection@[i as int].number == page_num
                &&& numbers(collection@).index_of_first(page_num) == Some(i as int)
            },
            None => {
                &&& numbers(collection@).index_of_first(page_num) is None
                &&& !numbers(collection@).contains(page_num)
            },
        },
{
    let mut i: usize = 0;
    while i < collection.len()
        invariant
            i <= collection@.len(),
            forall|j: int| 0 <= j < i ==> numbers(collection@)[j] != page_num,
        decreases collection@.len() - i,
    {
        if page_num == collection[i].number {
            proof {
                let ns = numbers(collection@);
                ns.index_of_first_ensures(page_num);
                assert(ns[i as int] == page_num);
                let first = ns.index_of_first(page_num);
                if first is Some && first != Some(i as int) {
                    let f = first->0;
                    if f < i {
                        assert(ns[f] != page_num);
                    } else {
                        assert(ns[i as int] != page_num);
                    }
                }
            }
            return Some(i);
        }
        i = i + 1;
    }
    proof {
        numbers(collection@).index_of_first_ensures(page_num);
    }
    None
}

/// Schedules the write-back of a dirty page: the page joins `writes` as it is.
fn schedule_write_to_disk(page: Page, writes: &mut Vec<Page>)
    ensures
        final(writes)@ == old(writes)@.push(page),
{
    writes.push(page);
}

/// One rotation of the clock hand over a full table.
fn rotate(
    tau: usize,
    clock: usize,
    pages: &mut Vec<Page>,
    pointer: &mut usize,
    best: &mut Candidate,
    writes: &mut Vec<Page>,
)
    requires
        *old(pointer) < old(pages)@.len(),
        old(best).index < old(pages)@.len(),
        forall|i: int| 0 <= i < old(pages)@.len() ==> (#[trigger] old(pages)@[i]).timestamp <= clock,
    ensures
        (Scan {
            pages: final(pages)@,
            pointer: *final(pointer) as int,
            best: *final(best),
            written: final(writes)@,
        }) == sweep(
            Scan { pages: old(pages)@, pointer: *old(pointer) as int, best: *old(best), written: old(writes)@ },
            clock,
            tau,
            old(pages)@.len(),
        ),
{
    let length: usize = pages.len();
    let ghost start = Scan { pages: pages@, pointer: *pointer as int, best: *best, written: writes@ };
    let mut visited: usize = 0;
    while visited < length && best.status.rank() != PageStatus::OldAndClean.rank()
        invariant
            visited <= length,
            length == pages@.len(),
            *pointer < length,
            best.index < length,
            forall|i: int| 0 <= i < pages@.len() ==> (#[trigger] pages@[i]).timestamp <= clock,
            sweep(start, clock, tau, length as nat) == sweep(
                Scan { pages: pages@, pointer: *pointer as int, best: *best, written: writes@ },
                clock,
                tau,
                (length - visited) as nat,
            ),
        decreases length - visited,
    {
        let at: usize = *pointer;
        let next: usize = if at + 1 >= length {
            0
        } else {
            at + 1
        };
        let page = pages[at];
        if page.referenced {
            pages.set(at, Page { referenced: false, ..page });
            *pointer = next;
        } else {
            let age: usize = clock - page.timestamp;
            let status = if age > tau {
                if page.is_dirty {
                    PageStatus::OldAndDirty
                } else {
                    PageStatus::OldAndClean
                }
            } else if page.is_dirty {
                PageStatus::Dirty
            } else {
                PageStatus::Clean
            };
            let seen = Candidate::new(at, status);
            if seen.outranks(best) {
                *best = seen;
            }
            match status {
                PageStatus::OldAndClean => {},
                PageStatus::OldAndDirty => {
                    schedule_write_to_disk(page, writes);
                    pages.set(at, Page { is_dirty: false, ..page });
                    *pointer = next;
                },
                _ => {
                    *pointer = next;
                },
            }
        }
        visited = visited + 1;
    }
}

/// Classifies the access made at time `clock` and updates the table and the
/// clock hand. Returns the classification and the write-backs that the
/// access schedules.
pub fn access_page(
    tau: usize,
    capacity: usize,
    clock: usize,
    access: &MemoryAccess,
    pages: &mut Vec<Page>,
    pointer: &mut usize,
) -> (outcome: (AccessResult, Vec<Page>))
    requires
        well_formed(Clock { pages: old(pages)@, pointer: *old(pointer) as int }, capacity, clock as int),
    ensures
        (Clock { pages: final(pages)@, pointer: *final(pointer) as int }, outcome.0) == step(
            Clock { pages: old(pages)@, pointer: *old(pointer) as int },
            tau,
            capacity,
            clock,
            *access,
        ),
        outcome.1@ == write_backs(
            Clock { pages: old(pages)@, pointer: *old(pointer) as int },
            tau,
            capacity,
            clock,
            *access,
        ),
        well_formed(Clock { pages: final(pages)@, pointer: *final(pointer) as int }, capacity, clock + 1),
        numbers(old(pages)@).contains(access.frame_number) ==> {
            &&& outcome.0 == AccessResult::Hit
            &&& numbers(final(pages)@) == numbers(old(pages)@)
            &&& *final(pointer) == *old(pointer)
        },
        outcome.0 matches AccessResult::MissReplace(m) ==> {
            &&& m.replaced != m.new_page
            &&& numbers(old(pages)@).contains(m.replaced)
            &&& !numbers(final(pages)@).contains(m.replaced)
            &&& m.frame_index < final(pages)@.len()
            &&& is_victim(
                Clock { pages: old(pages)@, pointer: *old(pointer) as int },
                clock,
                tau,
                m.frame_index as int,
            )
            &&& final(pages)@[m.frame_index as int].number == m.new_page
        },
{
    let ghost before = Clock { pages: pages@, pointer: *pointer as int };
    proof {
        lemma_step(before, tau, capacity, clock, *access);
    }
    let mut writes: Vec<Page> = Vec::new();
    match contains_page(access.frame_number, pages) {
        Some(k) => {
            let page = pages[k];
            let is_dirty = match access.access_type {
                AccessType::Write => true,
                AccessType::Read => page.is_dirty,
            };
            pages.set(k, Page { number: page.number, referenced: true, is_dirty, timestamp: clock });
            (AccessResult::Hit, writes)
        },
        None => {
            let is_dirty = match access.access_type {
                AccessType::Write => true,
                AccessType::Read => false,
            };
            let fresh = Page { number: access.frame_number, referenced: true, is_dirty, timestamp: clock };
            if pages.len() < capacity {
                pages.push(fresh);
                (AccessResult::MissSimple, writes)
            } else {
                let mut best = Candidate::new(*pointer, PageStatus::Nothing);
                assert(writes@ =~= scan_start(before).written);
                rotate(tau, clock, pages, pointer, &mut best, &mut writes);
                proof {
                    lemma_sweep_keeps(scan_start(before), clock, tau, before.pages.len());
                }
                if best.status.rank() == PageStatus::Nothing.rank() {
                    rotate(tau, clock, pages, pointer, &mut best, &mut writes);
                }
                proof {
                    lemma_scan_keeps(before, clock, tau);
                }
                let victim: usize = best.index;
                let evicted = pages[victim];
                if evicted.is_dirty {
                    schedule_write_to_disk(evicted, &mut writes);
                }
                pages.set(victim, fresh);
                (AccessResult::MissReplace(MissReplacement::new(evicted.number, victim, access.frame_number)), writes)
            }
        },
    }
}

/// Runs the working-set clock from the empty table `pages`, with the hand
/// on its first frame.
fn run(tau: usize, total_physical_pages: usize, accesses: &Vec<MemoryAccess>, pages: Vec<Page>) -> (outcome: (
    Vec<AccessResult>,
    Vec<Page>,
))
    requires
        total_physical_pages >= 1,
        pages@.len() == 0,
    ensures
        outcome.0@ == simulate(tau, total_physical_pages, accesses@),
        outcome.1@ == write_backs_until(tau, total_physical_pages, accesses@, accesses@.len()),
{
    let mut pages = pages;
    let mut pointer: usize = 0;
    let mut results: Vec<AccessResult> = Vec::with_capacity(accesses.len());
    let mut writes: Vec<Page> = Vec::new();
    let mut clock: usize = 0;
    assert(pages@ =~= Seq::empty());
    assert(writes@ =~= Seq::empty());
    while clock < accesses.len()
        invariant
            total_physical_pages >= 1,
            clock <= accesses@.len(),
            results@.len() == clock,
            (Clock { pages: pages@, pointer: pointer as int }) == state_after(
                tau,
                total_physical_pages,
                accesses@,
                clock as nat,
            ),
            forall|i: int| 0 <= i < clock ==> results@[i] == result_at(tau, total_physical_pages, accesses@, i),
            writes@ == write_backs_until(tau, total_physical_pages, accesses@, clock as nat),
        decreases accesses@.len() - clock,
    {
        proof {
            lemma_state_after(tau, total_physical_pages, accesses@, clock as nat);
        }
        let (result, mut scheduled) = access_page(
            tau,
            total_physical_pages,
            clock,
            &accesses[clock],
            &mut pages,
            &mut pointer,
        );
        results.push(result);
        writes.append(&mut scheduled);
        clock = clock + 1;
    }
    assert(results@ =~= simulate(tau, total_physical_pages, accesses@));
    (results, writes)
}

/// Runs the working-set clock over `accesses` with `total_physical_pages`
/// frames and age threshold `tau`, from an empty table. Returns the
/// classification of every access in order, and the write-backs that the run
/// schedules, in order.
pub fn process_with_write_backs(tau: usize, total_physical_pages: usize, accesses: &Vec<MemoryAccess>) -> (outcome: (
    Vec<AccessResult>,
    Vec<Page>,
))
    requires
        total_physical_pages >= 1,
    ensures
        outcome.0@ == simulate(tau, total_physical_pages, accesses@),
        outcome.0@.len() == accesses@.len(),
        outcome.1@ == write_backs_until(tau, total_physical_pages, accesses@, accesses@.len()),
{
    run(tau, total_physical_pages, accesses, Vec::new())
}

/// Runs the working-set clock over `accesses` with `total_physical_pages`
/// frames and age threshold `tau`, from the empty table `v_memory`, and
/// classifies every access in order.
pub fn process_page_requests(
    tau: usize,
    total_physical_pages: usize,
    accesses: Vec<MemoryAccess>,
    v_memory: Vec<Page>,
) -> (results: Vec<AccessResult>)
    requires
        total_physical_pages >= 1,
        v_memory@.len() == 0,
    ensures
        results@ == simulate(tau, total_physical_pages, accesses@),
        results@.len() == accesses@.len(),
{
    run(tau, total_physical_pages, &accesses, v_memory).0
}

} // verus!
