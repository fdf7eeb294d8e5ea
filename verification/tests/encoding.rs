use listcrunch::encode::segment;
use listcrunch::index::build_index;
use listcrunch::runs::{compress, end_run};
use listcrunch::{crunch, uncrunch};
use std::fmt;

#[derive(PartialEq, Eq, Hash)]
struct Tagged {
    tag: u8,
    name: &'static str,
}

impl fmt::Display for Tagged {
    fn fmt(&self, f: &mut fmt::Formatter<'_>) -> fmt::Result {
        f.write_str(self.name)
    }
}

#[test]
fn crunch_page_sizes() {
    let pages = vec![
        "595.0x842.0",
        "595.0x842.0",
        "595.0x842.0",
        "595.0x842.0",
        "595.0x842.0",
        "595.0x842.0",
        "595.0x842.0",
    ];
    assert_eq!(crunch(&pages), "595.0x842.0:0-6");
}

#[test]
fn crunch_strings() {
    let list = vec![String::from("a"), String::from("b"), String::from("a")];
    assert_eq!(crunch(&list), "a:0,2;b:1");
}

#[test]
fn crunch_groups_by_equality_not_by_text() {
    let list = vec![
        Tagged { tag: 1, name: "x" },
        Tagged { tag: 2, name: "x" },
        Tagged { tag: 1, name: "x" },
    ];
    assert_eq!(crunch(&list), "x:0,2;x:1");
    assert_eq!(uncrunch("x:0,2;x:1"), Ok(vec!["x", "x", "x"]));
}

#[test]
fn crunch_takes_the_text_of_the_first_item() {
    let list = vec![Tagged { tag: 1, name: "first" }, Tagged { tag: 1, name: "first" }];
    assert_eq!(crunch(&list), "first:0-1");
}

#[test]
fn crunch_two_digit_positions() {
    let list = vec![0, 1, 1, 1, 1, 1, 1, 1, 1, 1, 1, 1, 0];
    assert_eq!(crunch(&list), "0:0,12;1:1-11");
}

#[test]
fn crunch_negative_and_empty_labels() {
    assert_eq!(crunch(&vec![-1, -1, 5]), "-1:0-1;5:2");
    assert_eq!(crunch(&vec!["", "a", ""]), ":0,2;a:1");
}

#[test]
fn crunch_does_not_escape_delimiters() {
    assert_eq!(crunch(&vec!["a:b"]), "a:b:0");
    assert!(uncrunch("a:b:0").is_err());
    assert_eq!(crunch(&vec!["a;b"]), "a;b:0");
    assert!(uncrunch("a;b:0").is_err());
}

#[test]
fn labels_with_commas_and_dashes_come_back() {
    let list = vec!["a,b", "c-d", "a,b"];
    let text = crunch(&list);
    assert_eq!(text, "a,b:0,2;c-d:1");
    assert_eq!(uncrunch(&text), Ok(list));
}

#[test]
fn round_trip_numbers() {
    let list = vec![50, 50, 3, 50, 50, 3, 60, 70, 70];
    let text = crunch(&list);
    let labels: Vec<String> = list.iter().map(|n| n.to_string()).collect();
    let expected: Vec<&str> = labels.iter().map(|s| s.as_str()).collect();
    assert_eq!(uncrunch(&text), Ok(expected));
}

#[test]
fn round_trip_long_list() {
    let mut list: Vec<u32> = Vec::new();
    let mut seed: u32 = 12345;
    for _ in 0..5000 {
        seed = seed.wrapping_mul(1103515245).wrapping_add(12345);
        list.push((seed >> 16) % 7);
    }
    let text = crunch(&list);
    let labels: Vec<String> = list.iter().map(|n| n.to_string()).collect();
    let expected: Vec<&str> = labels.iter().map(|s| s.as_str()).collect();
    assert_eq!(uncrunch(&text), Ok(expected));
}

#[test]
fn round_trip_unicode_labels() {
    let list = vec!["größe", "日本語", "größe", "größe", "\u{3000}"];
    let text = crunch(&list);
    assert_eq!(text, "größe:0,2-3;日本語:1;\u{3000}:4");
    assert_eq!(uncrunch(&text), Ok(list));
}

#[test]
fn round_trip_of_nothing() {
    let empty: Vec<&str> = Vec::new();
    let text = crunch(&empty);
    assert_eq!(text, "");
    assert_eq!(uncrunch(&text), Ok(empty));
}

#[test]
fn index_is_ordered_by_first_occurrence() {
    let list = vec![9, 4, 9, 9, 2, 4];
    let index = build_index(&list);
    assert_eq!(index.len(), 3);
    assert_eq!((*index[0].0, index[0].1.clone()), (9, vec![0, 2, 3]));
    assert_eq!((*index[1].0, index[1].1.clone()), (4, vec![1, 5]));
    assert_eq!((*index[2].0, index[2].1.clone()), (2, vec![4]));
}

#[test]
fn index_refers_to_the_first_item_of_a_value() {
    let list = vec![Tagged { tag: 1, name: "a" }, Tagged { tag: 1, name: "a" }];
    let index = build_index(&list);
    assert_eq!(index.len(), 1);
    assert!(std::ptr::eq(index[0].0, &list[0]));
}

#[test]
fn index_of_nothing() {
    let list: Vec<u8> = Vec::new();
    assert!(build_index(&list).is_empty());
}

#[test]
fn index_holds_each_position_once() {
    let list = vec!['a', 'b', 'a', 'c', 'b', 'a'];
    let index = build_index(&list);
    let mut seen = vec![0; list.len()];
    for (value, positions) in &index {
        for &p in positions {
            assert_eq!(list[p], **value);
            seen[p] += 1;
        }
    }
    assert_eq!(seen, vec![1; list.len()]);
}

#[test]
fn runs_of_an_ascending_list() {
    assert_eq!(compress(&[0, 1, 3, 4, 5, 9]), vec![(0, 1), (3, 5), (9, 9)]);
    assert_eq!(compress(&[7]), vec![(7, 7)]);
    assert_eq!(compress(&[]), vec![]);
}

#[test]
fn runs_neither_merge_nor_split() {
    assert_eq!(compress(&[0, 2, 4]), vec![(0, 0), (2, 2), (4, 4)]);
    assert_eq!(compress(&[5, 6, 7, 8]), vec![(5, 8)]);
}

#[test]
fn runs_at_the_end_of_the_range() {
    assert_eq!(compress(&[usize::MAX - 1, usize::MAX]), vec![(usize::MAX - 1, usize::MAX)]);
    assert_eq!(compress(&[usize::MAX, 0]), vec![(usize::MAX, usize::MAX), (0, 0)]);
}

#[test]
fn runs_of_a_list_that_is_not_ascending() {
    assert_eq!(compress(&[3, 2, 3, 4]), vec![(3, 3), (2, 4)]);
    assert_eq!(compress(&[1, 1]), vec![(1, 1), (1, 1)]);
}

#[test]
fn run_as_text() {
    assert_eq!(end_run((0, 0)), "0");
    assert_eq!(end_run((3, 5)), "3-5");
    assert_eq!(end_run((10, 109)), "10-109");
    assert_eq!(end_run((usize::MAX, usize::MAX)), usize::MAX.to_string());
}

#[test]
fn segment_as_text() {
    assert_eq!(segment("50", &[0, 1, 3, 4]), "50:0-1,3-4");
    assert_eq!(segment("", &[2]), ":2");
    assert_eq!(segment("x", &[]), "x:");
}
