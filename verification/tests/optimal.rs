use pagesim::optimal::process_page_requests;
use pagesim::{get_total_faults, AccessResult, MemoryAccess, MissReplacement};

#[test]
fn optimal_three_initial_accesses_are_all_simple_misses() {
    let accesses = MemoryAccess::create(String::from("R:1 R:2 W:3"));
    let total_frames = 4;
    let v_memory: Vec<usize> = Vec::with_capacity(total_frames);
    let results = process_page_requests(total_frames, accesses, v_memory);
    assert_eq!(results[0], AccessResult::MissSimple);
    assert_eq!(results[1], AccessResult::MissSimple);
    assert_eq!(results[2], AccessResult::MissSimple);
    assert_eq!(get_total_faults(&results), 3);
}

#[test]
fn optimal_third_miss_is_miss_replace() {
    let accesses = MemoryAccess::create(String::from("R:1 R:2 W:3"));
    let total_frames = 2;
    let v_memory: Vec<usize> = Vec::with_capacity(total_frames);
    let results = process_page_requests(total_frames, accesses, v_memory);
    assert_eq!(results[0], AccessResult::MissSimple);
    assert_eq!(results[1], AccessResult::MissSimple);

    let mr = MissReplacement::new(1, 0, 3);
    assert_eq!(results[2], AccessResult::MissReplace(mr));

    assert_eq!(get_total_faults(&results), 3);
}

#[test]
fn optimal_all_are_subsequent_hits_after_first_miss() {
    let accesses = MemoryAccess::create(String::from("R:1 R:1 W:1 R:1 W:1"));
    let total_frames = 2;
    let v_memory: Vec<usize> = Vec::with_capacity(total_frames);
    let results = process_page_requests(total_frames, accesses, v_memory);
    assert_eq!(results[0], AccessResult::MissSimple);
    for i in 1..results.len() {
        assert_eq!(results[i], AccessResult::Hit);
    }
    assert_eq!(get_total_faults(&results), 1);
}

#[test]
fn optimal_alternating_hits_and_misses() {
    let accesses = MemoryAccess::create(String::from("R:1 W:1 W:2 R:1 R:2 W:3 W:4"));
    let total_frames = 4;
    let v_memory: Vec<usize> = Vec::with_capacity(total_frames);
    let results = process_page_requests(total_frames, accesses, v_memory);
    assert_eq!(results[0], AccessResult::MissSimple);
    assert_eq!(results[1], AccessResult::Hit);
    assert_eq!(results[2], AccessResult::MissSimple);
    assert_eq!(results[3], AccessResult::Hit);
    assert_eq!(results[4], AccessResult::Hit);
    assert_eq!(results[5], AccessResult::MissSimple);
    assert_eq!(results[6], AccessResult::MissSimple);
    assert_eq!(results.len(), 7);
    assert_eq!(get_total_faults(&results), 4);
}

#[test]
fn replace_the_last_one_to_be_accessed() {
    let accesses = MemoryAccess::create(String::from("R:1 R:2 R:3 R:4 R:1 R:2 R:3"));
    let total_frames = 3;
    let v_memory: Vec<usize> = Vec::with_capacity(total_frames);
    let results = process_page_requests(total_frames, accesses, v_memory);
    assert_eq!(results[0], AccessResult::MissSimple);
    assert_eq!(results[1], AccessResult::MissSimple);
    assert_eq!(results[2], AccessResult::MissSimple);
    assert_eq!(results[4], AccessResult::Hit);
    assert_eq!(results[5], AccessResult::Hit);

    let mr = MissReplacement::new(3, 2, 4);
    assert_eq!(results[3], AccessResult::MissReplace(mr));

    let mr = MissReplacement::new(1, 0, 3);
    assert_eq!(results[6], AccessResult::MissReplace(mr));

    assert_eq!(get_total_faults(&results), 5);
}

#[test]
fn replace_second_because_its_no_longer_accessed() {
    let accesses = MemoryAccess::create(String::from("R:1 R:2 R:3 R:4 R:1 R:4"));
    let total_frames = 3;
    let v_memory: Vec<usize> = Vec::with_capacity(total_frames);
    let results = process_page_requests(total_frames, accesses, v_memory);
    assert_eq!(results[0], AccessResult::MissSimple);
    assert_eq!(results[1], AccessResult::MissSimple);
    assert_eq!(results[2], AccessResult::MissSimple);
    assert_eq!(results[4], AccessResult::Hit);
    assert_eq!(results[5], AccessResult::Hit);

    let mr = MissReplacement::new(2, 1, 4);
    assert_eq!(results[3], AccessResult::MissReplace(mr));

    assert_eq!(get_total_faults(&results), 4);
}

#[test]
fn replace_first_and_third_because_they_are_no_longer_accessed() {
    let accesses = MemoryAccess::create(String::from("R:1 R:2 R:3 R:4 R:5 R:2 R:4"));
    let total_frames = 3;
    let v_memory: Vec<usize> = Vec::with_capacity(total_frames);
    let results = process_page_requests(total_frames, accesses, v_memory);
    assert_eq!(results[0], AccessResult::MissSimple);
    assert_eq!(results[1], AccessResult::MissSimple);
    assert_eq!(results[2], AccessResult::MissSimple);

    let mr = MissReplacement::new(1, 0, 4);
    assert_eq!(results[3], AccessResult::MissReplace(mr));

    let mr = MissReplacement::new(3, 2, 5);
    assert_eq!(results[4], AccessResult::MissReplace(mr));

    assert_eq!(get_total_faults(&results), 5);
}

#[test]
fn replace_first_twice_because_of_miss() {
    let accesses = MemoryAccess::create(String::from("R:1 R:2 R:3 R:4"));
    let total_frames = 2;
    let v_memory: Vec<usize> = Vec::with_capacity(total_frames);
    let results = process_page_requests(total_frames, accesses, v_memory);
    assert_eq!(results[0], AccessResult::MissSimple);
    assert_eq!(results[1], AccessResult::MissSimple);

    let mr = MissReplacement::new(1, 0, 3);
    assert_eq!(results[2], AccessResult::MissReplace(mr));

    let mr = MissReplacement::new(3, 0, 4);
    assert_eq!(results[3], AccessResult::MissReplace(mr));

    assert_eq!(get_total_faults(&results), 4);
}

#[test]
fn replace_first_thrice() {
    let accesses = MemoryAccess::create(String::from("R:1 R:2 R:3 R:4 R:5 R:3 R:2 R:1"));
    let total_frames = 3;
    let v_memory: Vec<usize> = Vec::with_capacity(total_frames);
    let results = process_page_requests(total_frames, accesses, v_memory);
    assert_eq!(results[0], AccessResult::MissSimple);
    assert_eq!(results[1], AccessResult::MissSimple);
    assert_eq!(results[2], AccessResult::MissSimple);
    assert_eq!(results[5], AccessResult::Hit);
    assert_eq!(results[6], AccessResult::Hit);

    let mr = MissReplacement::new(1, 0, 4);
    assert_eq!(results[3], AccessResult::MissReplace(mr));

    let mr = MissReplacement::new(4, 0, 5);
    assert_eq!(results[4], AccessResult::MissReplace(mr));

    let mr = MissReplacement::new(5, 0, 1);
    assert_eq!(results[7], AccessResult::MissReplace(mr));

    assert_eq!(get_total_faults(&results), 6);
}

#[test]
fn optimal_evicts_earliest_frame_when_no_page_recurs() {
    let accesses = MemoryAccess::create(String::from("R:1 R:2 R:3"));
    let results = process_page_requests(2, accesses, Vec::new());
    assert_eq!(
        results,
        vec![
            AccessResult::MissSimple,
            AccessResult::MissSimple,
            AccessResult::MissReplace(MissReplacement::new(1, 0, 3)),
        ]
    );
}

#[test]
fn optimal_prefers_page_without_future_use_over_distant_use() {
    // Pages 1 and 3 recur, page 2 never does: frame 1 goes, whatever the distance of the others.
    let accesses = MemoryAccess::create(String::from("R:1 R:2 R:3 R:4 R:3 R:5 R:5 R:5 R:1"));
    let results = process_page_requests(3, accesses, Vec::new());
    assert_eq!(results[3], AccessResult::MissReplace(MissReplacement::new(2, 1, 4)));
    assert_eq!(results[4], AccessResult::Hit);
    // At access 5, page 4 is the first without a later use.
    assert_eq!(results[5], AccessResult::MissReplace(MissReplacement::new(4, 1, 5)));
    assert_eq!(results[8], AccessResult::Hit);
    assert_eq!(get_total_faults(&results), 5);
}

#[test]
fn optimal_empty_trace_gives_no_results() {
    let accesses = MemoryAccess::create(String::new());
    let results = process_page_requests(1, accesses, Vec::new());
    assert!(results.is_empty());
    assert_eq!(get_total_faults(&results), 0);
}

#[test]
fn optimal_single_frame_replaces_at_index_zero() {
    let accesses = MemoryAccess::create(String::from("R:7 R:7 W:8 R:7"));
    let results = process_page_requests(1, accesses, Vec::new());
    assert_eq!(
        results,
        vec![
            AccessResult::MissSimple,
            AccessResult::Hit,
            AccessResult::MissReplace(MissReplacement::new(7, 0, 8)),
            AccessResult::MissReplace(MissReplacement::new(8, 0, 7)),
        ]
    );
}
