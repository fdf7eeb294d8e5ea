use listcrunch::{crunch, uncrunch};

// crunch
#[test]
fn basic_crunch() {
    assert_eq!(crunch(&vec![1, 2, 3]), "1:0;2:1;3:2")
}

#[test]
fn basic_run() {
    assert_eq!(crunch(&vec![1, 1, 1]), "1:0-2")
}

#[test]
fn basic_broken_run() {
    assert_eq!(crunch(&vec![1, 2, 1]), "1:0,2;2:1")
}

#[test]
fn order() {
    assert_eq!(crunch(&vec![2, 1]), "2:0;1:1")
}

#[test]
fn advanced() {
    assert_eq!(
        crunch(&vec![50, 50, 3, 50, 50, 3, 60, 70, 70]),
        "50:0-1,3-4;3:2,5;60:6;70:7-8"
    )
}

#[test]
fn empty_crunch() {
    let empty: Vec<i32> = Vec::new();
    assert_eq!(crunch(&empty), "")
}

#[test]
fn single_item_crunch() {
    assert_eq!(crunch(&vec![77]), "77:0")
}

// uncrunch
#[test]
fn basic_uncrunch() {
    assert_eq!(uncrunch("1:0;2:1;3:2"), Ok(vec!["1", "2", "3"]))
}

#[test]
fn basic_run_uncrunch() {
    assert_eq!(uncrunch("1:0;2:1;3:2"), Ok(vec!["1", "2", "3"]))
}

#[test]
fn basic_broken_run_uncrunch() {
    assert_eq!(uncrunch("1:0,2;2:1"), Ok(vec!["1", "2", "1"]))
}

#[test]
fn order_uncrunch() {
    assert_eq!(uncrunch("2:0;1:1"), Ok(vec!["2", "1"]))
}

#[test]
fn advanced_uncrunch() {
    assert_eq!(
        uncrunch("50:0-1,3-4;3:2,5;60:6;70:7-8"),
        Ok(vec!["50", "50", "3", "50", "50", "3", "60", "70", "70"])
    )
}

#[test]
fn empty_uncrunch() {
    assert_eq!(uncrunch(""), Ok(vec![]))
}

#[test]
fn single_item_uncrunch() {
    assert_eq!(uncrunch("77:0"), Ok(vec!["77"]))
}
