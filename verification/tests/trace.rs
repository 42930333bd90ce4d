use pagesim::text::{char_is_space, chars_of, read_usize};
use pagesim::{
    get_total_faults, parse_number, AccessResult, AccessType, MemoryAccess, MissReplacement, TraceErrorKind,
};

fn access(frame_number: usize, access_type: AccessType) -> MemoryAccess {
    MemoryAccess { frame_number, access_type }
}

#[test]
fn create_reads_reads_and_writes_in_order() {
    let accesses = MemoryAccess::create(String::from("R:1 W:22 R:0"));
    assert_eq!(
        accesses,
        vec![access(1, AccessType::Read), access(22, AccessType::Write), access(0, AccessType::Read)]
    );
}

#[test]
fn parse_splits_on_any_white_space() {
    let accesses = MemoryAccess::parse("  R:1\tW:2\n\nR:3\u{a0}W:4\u{2003}R:5  ").unwrap();
    assert_eq!(
        accesses,
        vec![
            access(1, AccessType::Read),
            access(2, AccessType::Write),
            access(3, AccessType::Read),
            access(4, AccessType::Write),
            access(5, AccessType::Read),
        ]
    );
}

#[test]
fn parse_of_empty_or_blank_text_is_the_empty_trace() {
    assert_eq!(MemoryAccess::parse("").unwrap(), Vec::new());
    assert_eq!(MemoryAccess::parse(" \n\t ").unwrap(), Vec::new());
}

#[test]
fn parse_rejects_an_unknown_operation_and_names_the_token() {
    let error = MemoryAccess::parse("R:1 X:2 W:3").unwrap_err();
    assert_eq!(error.kind, TraceErrorKind::Operation);
    assert_eq!(error.token, "X:2");
    assert_eq!(error.message(), "Invalid access token: X:2");

    let error = MemoryAccess::parse("RW:2").unwrap_err();
    assert_eq!(error.kind, TraceErrorKind::Operation);
    assert_eq!(error.token, "RW:2");

    let error = MemoryAccess::parse("r:2").unwrap_err();
    assert_eq!(error.kind, TraceErrorKind::Operation);

    let error = MemoryAccess::parse(":2").unwrap_err();
    assert_eq!(error.kind, TraceErrorKind::Operation);
}

#[test]
fn parse_rejects_a_page_that_is_no_number_and_names_the_token() {
    let error = MemoryAccess::parse("R:1 W:two R:x").unwrap_err();
    assert_eq!(error.kind, TraceErrorKind::PageNumber);
    assert_eq!(error.token, "W:two");
    assert_eq!(error.message(), "Invalid memory access token: W:two");

    for text in ["R", "R:", "W:-1", "R:1:2", "R:1a", "R:+", "R: 1"] {
        let error = MemoryAccess::parse(text).unwrap_err();
        assert_eq!(error.kind, TraceErrorKind::PageNumber, "{}", text);
    }
}

#[test]
fn parse_reports_the_first_bad_token_only() {
    let error = MemoryAccess::parse("R:1 W:x Q:3").unwrap_err();
    assert_eq!(error.kind, TraceErrorKind::PageNumber);
    assert_eq!(error.token, "W:x");
    let error = MemoryAccess::parse("\u{3000}Q:3\u{3000}W:x").unwrap_err();
    assert_eq!(error.kind, TraceErrorKind::Operation);
    assert_eq!(error.token, "Q:3");
}

#[test]
fn parse_accepts_a_plus_sign_and_leading_zeros() {
    let accesses = MemoryAccess::parse("R:+7 W:007").unwrap();
    assert_eq!(accesses, vec![access(7, AccessType::Read), access(7, AccessType::Write)]);
}

#[test]
fn parse_accepts_the_largest_page_and_rejects_the_next() {
    let largest = format!("R:{}", usize::MAX);
    assert_eq!(MemoryAccess::parse(&largest).unwrap(), vec![access(usize::MAX, AccessType::Read)]);
    let too_large = format!("R:{}0", usize::MAX);
    assert_eq!(MemoryAccess::parse(&too_large).unwrap_err().kind, TraceErrorKind::PageNumber);
    let next = format!("W:{}", usize::MAX as u128 + 1);
    assert_eq!(MemoryAccess::parse(&next).unwrap_err().kind, TraceErrorKind::PageNumber);
}

#[test]
fn read_usize_reads_the_numeral_between_two_places() {
    let text = chars_of("ab+120cd");
    assert_eq!(text, vec!['a', 'b', '+', '1', '2', '0', 'c', 'd']);
    assert_eq!(read_usize(&text, 2, 6), Some(120));
    assert_eq!(read_usize(&text, 3, 6), Some(120));
    assert_eq!(read_usize(&text, 3, 5), Some(12));
    assert_eq!(read_usize(&text, 2, 3), None);
    assert_eq!(read_usize(&text, 3, 3), None);
    assert_eq!(read_usize(&text, 3, 7), None);
    assert_eq!(read_usize(&text, 1, 6), None);
}

#[test]
fn white_space_is_what_the_unicode_property_says() {
    for c in [' ', '\t', '\n', '\u{b}', '\u{c}', '\r', '\u{85}', '\u{a0}', '\u{1680}', '\u{2000}', '\u{200a}',
        '\u{2028}', '\u{2029}', '\u{202f}', '\u{205f}', '\u{3000}'] {
        assert!(char_is_space(c), "{:?}", c);
    }
    for c in ['a', '0', ':', '\u{8}', '\u{e}', '\u{200b}', '\u{feff}', '\u{1f}'] {
        assert!(!char_is_space(c), "{:?}", c);
    }
    for code in 0..0x3100u32 {
        if let Some(c) = char::from_u32(code) {
            assert_eq!(char_is_space(c), c.is_whitespace(), "{:?}", c);
        }
    }
}

#[test]
fn parse_number_reads_a_number_or_names_its_kind() {
    let twelve = String::from("12");
    assert_eq!(parse_number("frame", Some(&twelve)), Ok(12));
    let plus = String::from("+3");
    assert_eq!(parse_number("tau", Some(&plus)), Ok(3));
    assert_eq!(parse_number("frame", None), Err(String::from("No frame count provided")));
    assert_eq!(parse_number("tau", None), Err(String::from("No tau count provided")));
    for text in ["", "abc", "-1", "1 ", " 1", "1.5", "+"] {
        let s = String::from(text);
        assert_eq!(parse_number("tau", Some(&s)), Err(String::from("Invalid tau count provided")), "{}", text);
    }
    let huge = format!("{}", usize::MAX as u128 + 1);
    assert_eq!(parse_number("frame", Some(&huge)), Err(String::from("Invalid frame count provided")));
    let most = format!("{}", usize::MAX);
    assert_eq!(parse_number("frame", Some(&most)), Ok(usize::MAX));
}

#[test]
fn parse_number_agrees_with_the_standard_reading() {
    for text in ["0", "00", "42", "+42", "++42", "4_2", "0x10", "９", "18446744073709551615", "18446744073709551616"] {
        let s = String::from(text);
        assert_eq!(parse_number("n", Some(&s)).ok(), text.parse::<usize>().ok(), "{}", text);
    }
}

#[test]
fn total_faults_counts_everything_but_hits() {
    assert_eq!(get_total_faults(&Vec::new()), 0);
    let results = vec![
        AccessResult::MissSimple,
        AccessResult::Hit,
        AccessResult::MissReplace(MissReplacement::new(1, 0, 2)),
        AccessResult::Hit,
        AccessResult::Hit,
        AccessResult::MissSimple,
    ];
    assert_eq!(get_total_faults(&results), 3);
    assert_eq!(get_total_faults(&vec![AccessResult::Hit, AccessResult::Hit]), 0);
}

#[test]
fn miss_replacement_new_keeps_its_arguments_apart() {
    let m = MissReplacement::new(3, 1, 7);
    assert_eq!(m.replaced, 3);
    assert_eq!(m.frame_index, 1);
    assert_eq!(m.new_page, 7);
}
