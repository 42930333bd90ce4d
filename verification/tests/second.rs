use pagesim::second::{access_page, contains_page, process_page_requests, Page};
use pagesim::{get_total_faults, AccessResult, AccessType, MemoryAccess, MissReplacement};
use std::collections::VecDeque;

#[test]
fn second_three_initial_accesses_are_all_simple_misses() {
    let accesses = MemoryAccess::create(String::from("R:1 R:2 W:3"));
    let total_pages = 4;
    let v_memory: VecDeque<Page> = VecDeque::with_capacity(total_pages);
    let results = process_page_requests(total_pages, accesses, v_memory);
    assert_eq!(results[0], AccessResult::MissSimple);
    assert_eq!(results[1], AccessResult::MissSimple);
    assert_eq!(results[2], AccessResult::MissSimple);
    assert_eq!(get_total_faults(&results), 3);
}

#[test]
fn second_third_miss_is_miss_replace() {
    let accesses = MemoryAccess::create(String::from("R:1 R:2 W:3"));
    let total_pages = 2;
    let v_memory: VecDeque<Page> = VecDeque::with_capacity(total_pages);
    let results = process_page_requests(total_pages, accesses, v_memory);
    assert_eq!(results[0], AccessResult::MissSimple);
    assert_eq!(results[1], AccessResult::MissSimple);

    let mr = MissReplacement::new(1, 0, 3);
    assert_eq!(results[2], AccessResult::MissReplace(mr));

    assert_eq!(get_total_faults(&results), 3);
}

#[test]
fn second_all_are_subsequent_hits_after_first_miss() {
    let accesses = MemoryAccess::create(String::from("R:1 R:1 W:1 R:1 W:1"));
    let total_pages = 2;
    let v_memory: VecDeque<Page> = VecDeque::with_capacity(total_pages);
    let results = process_page_requests(total_pages, accesses, v_memory);
    assert_eq!(results[0], AccessResult::MissSimple);
    for i in 1..results.len() {
        assert_eq!(results[i], AccessResult::Hit);
    }
    assert_eq!(get_total_faults(&results), 1);
}

#[test]
fn second_alternating_hits_and_misses() {
    let accesses = MemoryAccess::create(String::from("R:1 W:1 W:2 R:1 R:2 W:3 W:4"));
    let total_pages = 4;
    let v_memory: VecDeque<Page> = VecDeque::with_capacity(total_pages);
    let results = process_page_requests(total_pages, accesses, v_memory);
    assert_eq!(results[0], AccessResult::MissSimple);
    assert_eq!(results[1], AccessResult::Hit);
    assert_eq!(results[2], AccessResult::MissSimple);
    assert_eq!(results[3], AccessResult::Hit);
    assert_eq!(results[4], AccessResult::Hit);
    assert_eq!(results[5], AccessResult::MissSimple);
    assert_eq!(results[6], AccessResult::MissSimple);
    assert_eq!(results.len(), 7);
    assert_eq!(get_total_faults(&results), 4);
}

#[test]
fn replace_the_first_one_because_first_three_are_referenced() {
    let accesses = MemoryAccess::create(String::from("R:1 R:2 R:3 R:4"));
    let total_pages = 3;
    let v_memory: VecDeque<Page> = VecDeque::with_capacity(total_pages);
    let results = process_page_requests(total_pages, accesses, v_memory);
    assert_eq!(results[0], AccessResult::MissSimple);
    assert_eq!(results[1], AccessResult::MissSimple);
    assert_eq!(results[2], AccessResult::MissSimple);

    let mr = MissReplacement::new(1, 0, 4);
    assert_eq!(results[3], AccessResult::MissReplace(mr));

    assert_eq!(get_total_faults(&results), 4);
}

#[test]
fn replace_third_because_its_no_longer_referenced_after_replacing_first() {
    let accesses = MemoryAccess::create(String::from("R:1 R:2 R:3 R:4 R:2 R:1"));
    let total_pages = 3;
    let v_memory: VecDeque<Page> = VecDeque::with_capacity(total_pages);
    let results = process_page_requests(total_pages, accesses, v_memory);
    assert_eq!(results[0], AccessResult::MissSimple);
    assert_eq!(results[1], AccessResult::MissSimple);
    assert_eq!(results[2], AccessResult::MissSimple);
    assert_eq!(results[4], AccessResult::Hit);

    let mr = MissReplacement::new(1, 0, 4);
    assert_eq!(results[3], AccessResult::MissReplace(mr));

    let mr = MissReplacement::new(3, 0, 1);
    assert_eq!(results[5], AccessResult::MissReplace(mr));

    assert_eq!(get_total_faults(&results), 5);
}

#[test]
fn replace_each_subsequent_page_because_none_are_referenced() {
    let accesses = MemoryAccess::create(String::from("R:1 R:2 R:3 R:4 R:5 R:6 R:4 R:5 R:6"));
    let total_pages = 3;
    let v_memory: VecDeque<Page> = VecDeque::with_capacity(total_pages);
    let results = process_page_requests(total_pages, accesses, v_memory);
    assert_eq!(results[0], AccessResult::MissSimple);
    assert_eq!(results[1], AccessResult::MissSimple);
    assert_eq!(results[2], AccessResult::MissSimple);
    assert_eq!(results[6], AccessResult::Hit);
    assert_eq!(results[7], AccessResult::Hit);
    assert_eq!(results[8], AccessResult::Hit);

    let mr = MissReplacement::new(1, 0, 4);
    assert_eq!(results[3], AccessResult::MissReplace(mr));

    let mr = MissReplacement::new(2, 0, 5);
    assert_eq!(results[4], AccessResult::MissReplace(mr));

    let mr = MissReplacement::new(3, 0, 6);
    assert_eq!(results[5], AccessResult::MissReplace(mr));

    assert_eq!(get_total_faults(&results), 6);
}

#[test]
fn replace_unreferenced_three_because_two_is_referenced() {
    let accesses = MemoryAccess::create(String::from("R:1 R:2 R:3 R:4 R:2 R:5"));
    let total_pages = 3;
    let v_memory: VecDeque<Page> = VecDeque::with_capacity(total_pages);
    let results = process_page_requests(total_pages, accesses, v_memory);
    assert_eq!(results[0], AccessResult::MissSimple);
    assert_eq!(results[1], AccessResult::MissSimple);
    assert_eq!(results[2], AccessResult::MissSimple);
    assert_eq!(results[4], AccessResult::Hit);

    let mr = MissReplacement::new(1, 0, 4);
    assert_eq!(results[3], AccessResult::MissReplace(mr));

    let mr = MissReplacement::new(3, 0, 5);
    assert_eq!(results[5], AccessResult::MissReplace(mr));

    assert_eq!(get_total_faults(&results), 5);
}

fn queue_of(pages: &[(usize, bool)]) -> VecDeque<Page> {
    pages.iter().map(|&(number, referenced)| Page { number, referenced }).collect()
}

fn read(page: usize) -> MemoryAccess {
    MemoryAccess { frame_number: page, access_type: AccessType::Read }
}

#[test]
fn second_chance_spares_referenced_front_and_clears_its_bit() {
    let mut queue = queue_of(&[(1, true), (2, false), (3, true)]);
    let result = access_page(3, &read(9), &mut queue);
    assert_eq!(result, AccessResult::MissReplace(MissReplacement::new(2, 0, 9)));
    assert_eq!(queue, queue_of(&[(3, true), (1, false), (9, true)]));
}

#[test]
fn second_chance_full_rotation_evicts_the_oldest_page() {
    let mut queue = queue_of(&[(1, true), (2, true), (3, true)]);
    let result = access_page(3, &read(4), &mut queue);
    assert_eq!(result, AccessResult::MissReplace(MissReplacement::new(1, 0, 4)));
    assert_eq!(queue, queue_of(&[(2, false), (3, false), (4, true)]));
}

#[test]
fn second_chance_hit_sets_the_bit_and_keeps_the_order() {
    let mut queue = queue_of(&[(1, false), (2, false), (3, true)]);
    let result = access_page(3, &read(2), &mut queue);
    assert_eq!(result, AccessResult::Hit);
    assert_eq!(queue, queue_of(&[(1, false), (2, true), (3, true)]));
    let again = access_page(3, &read(2), &mut queue);
    assert_eq!(again, AccessResult::Hit);
    assert_eq!(queue, queue_of(&[(1, false), (2, true), (3, true)]));
}

#[test]
fn second_chance_miss_with_room_appends_referenced_page() {
    let mut queue = queue_of(&[(1, false)]);
    let result = access_page(2, &read(5), &mut queue);
    assert_eq!(result, AccessResult::MissSimple);
    assert_eq!(queue, queue_of(&[(1, false), (5, true)]));
}

#[test]
fn second_contains_page_finds_the_place() {
    let queue = queue_of(&[(4, true), (8, false), (6, true)]);
    assert_eq!(contains_page(4, &queue), Some(0));
    assert_eq!(contains_page(6, &queue), Some(2));
    assert_eq!(contains_page(5, &queue), None);
    assert_eq!(contains_page(5, &VecDeque::new()), None);
}

#[test]
fn second_chance_reprieve_is_spent_after_one_rotation() {
    let accesses = MemoryAccess::create(String::from("R:1 R:2 R:3 R:4"));
    let results = process_page_requests(3, accesses, VecDeque::new());
    assert_eq!(results[3], AccessResult::MissReplace(MissReplacement::new(1, 0, 4)));
}
