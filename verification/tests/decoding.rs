use listcrunch::arrange::arrange;
use listcrunch::decode::{
    describe, read_segment, read_token, Flaw, MALFORMED_NUMBER, MALFORMED_SEGMENT, RANGE_MAX,
    SINGLE_MAX,
};
use listcrunch::uncrunch;

#[test]
fn blank_uncrunch() {
    assert_eq!(uncrunch("   "), Ok(vec![]));
    assert_eq!(uncrunch("\t\n\r "), Ok(vec![]));
    assert_eq!(uncrunch("\u{a0}\u{2003}\u{3000}\u{85}"), Ok(vec![]));
}

#[test]
fn white_space_is_kept_outside_blank_texts() {
    assert_eq!(uncrunch(" a :0"), Ok(vec![" a "]));
    assert_eq!(uncrunch("a:0 "), Err(MALFORMED_NUMBER));
    assert_eq!(uncrunch(" a:0"), Ok(vec![" a"]));
}

#[test]
fn missing_colon_fails() {
    assert_eq!(uncrunch("1-2"), Err("Each ';'-delimited region must have exactly one ':'"));
}

#[test]
fn second_colon_fails() {
    assert_eq!(uncrunch("1:0:0"), Err("Each ';'-delimited region must have exactly one ':'"));
}

#[test]
fn range_without_numbers_fails() {
    assert_eq!(uncrunch("1:a-b"), Err("Couldn't parse range"));
}

#[test]
fn position_without_number_fails() {
    assert_eq!(uncrunch("1:x"), Err("Couldn't parse range"));
    assert_eq!(uncrunch("1:"), Err("Couldn't parse range"));
    assert_eq!(uncrunch("1:0,"), Err("Couldn't parse range"));
    assert_eq!(uncrunch("1:,0"), Err("Couldn't parse range"));
}

#[test]
fn empty_segment_fails() {
    assert_eq!(uncrunch("1:0;"), Err(MALFORMED_SEGMENT));
    assert_eq!(uncrunch(";1:0"), Err(MALFORMED_SEGMENT));
    assert_eq!(uncrunch("1:0;;2:1"), Err(MALFORMED_SEGMENT));
}

#[test]
fn first_flaw_wins() {
    assert_eq!(uncrunch("1:x;2"), Err(MALFORMED_NUMBER));
    assert_eq!(uncrunch("2;1:x"), Err(MALFORMED_SEGMENT));
    assert_eq!(uncrunch("a:0:1,x"), Err(MALFORMED_SEGMENT));
}

#[test]
fn messages() {
    assert_eq!(describe(Flaw::Segment), "Each ';'-delimited region must have exactly one ':'");
    assert_eq!(describe(Flaw::Range), "Couldn't parse range");
    assert_eq!(describe(Flaw::Token), "Couldn't parse range");
    assert_eq!(MALFORMED_SEGMENT, "Each ';'-delimited region must have exactly one ':'");
    assert_eq!(MALFORMED_NUMBER, "Couldn't parse range");
}

#[test]
fn labels_are_slices_of_the_text() {
    let text = String::from("ab:0;cd:1");
    let labels = uncrunch(&text).unwrap();
    assert_eq!(labels, vec!["ab", "cd"]);
    assert!(std::ptr::eq(labels[0].as_ptr(), text.as_ptr()));
    assert!(std::ptr::eq(labels[1].as_ptr(), text[5..].as_ptr()));
}

#[test]
fn gaps_and_repeats_are_not_checked() {
    assert_eq!(uncrunch("a:5;b:2"), Ok(vec!["b", "a"]));
    assert_eq!(uncrunch("a:0,0;b:0"), Ok(vec!["a", "a", "b"]));
    assert_eq!(uncrunch("b:1;a:0-2;c:1"), Ok(vec!["a", "b", "a", "c", "a"]));
}

#[test]
fn range_that_runs_backwards_names_nothing() {
    assert_eq!(uncrunch("a:5-3"), Ok(vec![]));
    assert_eq!(uncrunch("a:5-3,1;b:0"), Ok(vec!["b", "a"]));
}

#[test]
fn range_reads_its_first_two_parts() {
    assert_eq!(uncrunch("a:0-1-9"), Ok(vec!["a", "a"]));
    assert_eq!(uncrunch("a:0-1-"), Ok(vec!["a", "a"]));
    assert_eq!(uncrunch("a:0-1-x"), Ok(vec!["a", "a"]));
    assert_eq!(uncrunch("a:0--1"), Err(MALFORMED_NUMBER));
    assert_eq!(uncrunch("a:-1"), Err(MALFORMED_NUMBER));
    assert_eq!(uncrunch("a:1-"), Err(MALFORMED_NUMBER));
    assert_eq!(uncrunch("a:-"), Err(MALFORMED_NUMBER));
}

#[test]
fn numbers_may_have_a_plus_and_leading_zeros() {
    assert_eq!(uncrunch("a:+1;b:000"), Ok(vec!["b", "a"]));
    assert_eq!(uncrunch("a:+0-+1"), Ok(vec!["a", "a"]));
    assert_eq!(uncrunch("a:++1"), Err(MALFORMED_NUMBER));
    assert_eq!(uncrunch("a:+"), Err(MALFORMED_NUMBER));
    assert_eq!(uncrunch("a:1+"), Err(MALFORMED_NUMBER));
}

#[test]
fn numbers_have_limits() {
    assert_eq!(uncrunch("a:4294967295"), Ok(vec!["a"]));
    assert_eq!(uncrunch("a:4294967296"), Err(MALFORMED_NUMBER));
    assert_eq!(uncrunch("a:2147483647-2147483647"), Ok(vec!["a"]));
    assert_eq!(uncrunch("a:2147483648-2147483648"), Err(MALFORMED_NUMBER));
    assert_eq!(uncrunch("a:0-2147483648"), Err(MALFORMED_NUMBER));
    assert_eq!(uncrunch("a:99999999999999999999999"), Err(MALFORMED_NUMBER));
    assert_eq!(uncrunch("a:00000000000000000000001"), Ok(vec!["a"]));
    assert_eq!(RANGE_MAX, i32::MAX as u32);
    assert_eq!(SINGLE_MAX, u32::MAX);
}

#[test]
fn digits_of_other_scripts_are_no_digits() {
    assert_eq!(uncrunch("a:\u{661}"), Err(MALFORMED_NUMBER));
    assert_eq!(uncrunch("a:1\u{e9}"), Err(MALFORMED_NUMBER));
    assert_eq!(uncrunch("a:\u{ff11}-2"), Err(MALFORMED_NUMBER));
}

#[test]
fn token_as_positions() {
    assert_eq!(read_token("7"), Ok((7, 7)));
    assert_eq!(read_token("3-5"), Ok((3, 5)));
    assert_eq!(read_token("5-3"), Ok((5, 3)));
    assert_eq!(read_token("4294967295"), Ok((u32::MAX, u32::MAX)));
    assert_eq!(read_token(""), Err(Flaw::Token));
    assert_eq!(read_token("x"), Err(Flaw::Token));
    assert_eq!(read_token("a-b"), Err(Flaw::Range));
    assert_eq!(read_token("1-b"), Err(Flaw::Range));
    assert_eq!(read_token("a-1"), Err(Flaw::Range));
    assert_eq!(read_token("-"), Err(Flaw::Range));
}

#[test]
fn segment_as_pairs() {
    let mut pairs = vec![(9, "z")];
    assert_eq!(read_segment("50:0-1,3", &mut pairs), Ok(()));
    assert_eq!(pairs, vec![(9, "z"), (0, "50"), (1, "50"), (3, "50")]);
    let mut none = Vec::new();
    assert_eq!(read_segment("50", &mut none), Err(Flaw::Segment));
    assert_eq!(read_segment("5:0:", &mut none), Err(Flaw::Segment));
    assert_eq!(read_segment("5:0,x", &mut none), Err(Flaw::Token));
    assert_eq!(read_segment("5:0,1-", &mut none), Err(Flaw::Range));
    assert_eq!(read_segment(":4", &mut none), Ok(()));
    assert_eq!(none.last(), Some(&(4, "")));
}

#[test]
fn arrange_is_ordered_and_keeps_ties() {
    let pairs = vec![(2, "a"), (0, "b"), (2, "c"), (1, "d"), (0, "e"), (2, "f")];
    assert_eq!(
        arrange(&pairs),
        vec![(0, "b"), (0, "e"), (1, "d"), (2, "a"), (2, "c"), (2, "f")]
    );
    assert_eq!(arrange(&Vec::new()), Vec::new());
    assert_eq!(arrange(&vec![(5, "x")]), vec![(5, "x")]);
}

#[test]
fn arrange_agrees_with_a_stable_sort() {
    let names = ["a", "b", "c", "d", "e"];
    let mut pairs: Vec<(u32, &str)> = Vec::new();
    let mut seed: u32 = 99;
    for i in 0..3000 {
        seed = seed.wrapping_mul(1664525).wrapping_add(1013904223);
        pairs.push(((seed >> 20) % 50, names[i % 5]));
    }
    let mut expected = pairs.clone();
    expected.sort_by_key(|p| p.0);
    assert_eq!(arrange(&pairs), expected);
}
