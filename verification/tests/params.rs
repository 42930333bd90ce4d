use pagesim::wsclock::Page;
use pagesim::{optimal, second, wsclock, AccessResult, MemoryAccess, MissReplacement};
use pagesim::{ORA_SCA_Params, RunError, TraceErrorKind, WSCPR_Params};
use std::collections::VecDeque;

fn params(total_frames: usize, text: &str) -> ORA_SCA_Params {
    ORA_SCA_Params { total_frames, access_string: String::from(text) }
}

#[test]
fn run_optimal_gives_what_the_policy_gives() {
    let text = "R:1 R:2 R:3 R:4 R:1 R:2 R:3";
    let results = params(3, text).run_optimal().unwrap();
    assert_eq!(results, optimal::process_page_requests(3, MemoryAccess::create(String::from(text)), Vec::new()));
    assert_eq!(results[3], AccessResult::MissReplace(MissReplacement::new(3, 2, 4)));
    assert_eq!(results[6], AccessResult::MissReplace(MissReplacement::new(1, 0, 3)));
}

#[test]
fn run_second_chance_gives_what_the_policy_gives() {
    let text = "R:1 R:2 R:3 R:4 R:2 R:5";
    let results = params(3, text).run_second_chance().unwrap();
    assert_eq!(
        results,
        second::process_page_requests(3, MemoryAccess::create(String::from(text)), VecDeque::new())
    );
    assert_eq!(results[5], AccessResult::MissReplace(MissReplacement::new(3, 0, 5)));
}

#[test]
fn run_of_the_clock_gives_results_and_write_backs() {
    let text = "R:1 W:2 R:3 W:2 W:4 R:4 R:4 R:5";
    let p = WSCPR_Params { total_frames: 3, access_string: String::from(text), tau: 3 };
    let (results, writes) = p.run().unwrap();
    assert_eq!(
        results,
        wsclock::process_page_requests(3, 3, MemoryAccess::create(String::from(text)), Vec::new())
    );
    assert_eq!(results[7], AccessResult::MissReplace(MissReplacement::new(3, 2, 5)));
    assert_eq!(writes, vec![Page { number: 2, referenced: false, is_dirty: true, timestamp: 3 }]);
}

#[test]
fn run_without_frames_is_refused_before_the_trace_is_read() {
    for text in ["R:1 R:2", "", "not a trace"] {
        let refused = params(0, text).run_optimal().unwrap_err();
        assert!(matches!(refused, RunError::NoFrames));
        assert_eq!(refused.message(), "Invalid frame count provided");
        assert!(matches!(params(0, text).run_second_chance(), Err(RunError::NoFrames)));
        let p = WSCPR_Params { total_frames: 0, access_string: String::from(text), tau: 1 };
        assert!(matches!(p.run(), Err(RunError::NoFrames)));
    }
}

#[test]
fn run_over_a_bad_trace_names_the_first_bad_token() {
    match params(2, "R:1 W:x T:3").run_optimal() {
        Err(RunError::Trace(error)) => {
            assert_eq!(error.kind, TraceErrorKind::PageNumber);
            assert_eq!(error.token, "W:x");
        },
        other => panic!("{:?}", other),
    }
    let refused = params(2, "R:1 T:3 W:x").run_second_chance().unwrap_err();
    assert_eq!(refused.message(), "Invalid access token: T:3");
    let p = WSCPR_Params { total_frames: 2, access_string: String::from("R:1 W:"), tau: 0 };
    assert_eq!(p.run().unwrap_err().message(), "Invalid memory access token: W:");
}

#[test]
fn run_over_an_empty_trace_gives_no_results() {
    assert_eq!(params(1, "").run_optimal().unwrap(), Vec::new());
    assert_eq!(params(1, " \n ").run_second_chance().unwrap(), Vec::new());
    let p = WSCPR_Params { total_frames: 1, access_string: String::new(), tau: 0 };
    assert_eq!(p.run().unwrap(), (Vec::new(), Vec::new()));
}
