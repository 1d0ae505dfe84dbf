use uprtcl::errors::UprtclError;
use uprtcl::log::{get_current, set_current};
use uprtcl::store::Store;
use uprtcl::tags::{make_tag, parse_tag};

#[test]
fn tag_has_the_documented_shape() {
    let t = make_tag("abc", 0);
    assert_eq!(t, "content:abc,count:0");
    let t = make_tag("", 17);
    assert_eq!(t, "content:,count:17");
}

#[test]
fn tag_round_trips() {
    let t = make_tag("some-value", 12);
    let (v, c) = parse_tag(&t).unwrap();
    assert_eq!(v, "some-value");
    assert_eq!(c, 12);
}

#[test]
fn tag_round_trips_even_with_separator_inside_the_value() {
    let tricky = "x,count:5";
    let t = make_tag(tricky, 7);
    let (v, c) = parse_tag(&t).unwrap();
    assert_eq!(v, tricky);
    assert_eq!(c, 7);
}

#[test]
fn malformed_tags_are_rejected() {
    assert!(parse_tag("").is_none());
    assert!(parse_tag("content:x").is_none());
    assert!(parse_tag("value,count:3").is_none());
    assert!(parse_tag("content:x,count:").is_none());
    assert!(parse_tag("content:x,count:12a").is_none());
    // counter too large for u64
    assert!(parse_tag("content:x,count:99999999999999999999").is_none());
}

#[test]
fn counters_increase_with_each_write() {
    let mut store = Store::new();
    let base = String::from("base");
    let rel = String::from("head");
    let target = String::from("target");
    for i in 0..3u64 {
        set_current(&mut store, &base, &rel, &target, &format!("value-{}", i));
    }
    let counts: Vec<u64> = store
        .links
        .iter()
        .map(|l| parse_tag(&l.tag).unwrap().1)
        .collect();
    assert_eq!(counts, vec![0, 1, 2]);
    let current = get_current(&store, &base, &rel).unwrap();
    assert_eq!(current, Some(String::from("value-2")));
}

#[test]
fn the_maximum_count_wins_over_insertion_order() {
    let mut store = Store::new();
    let base = String::from("base");
    let rel = String::from("head");
    let target = String::from("target");
    // replicated entries may arrive with any counters, in any order
    let late = make_tag("late-but-low", 3);
    let early = make_tag("early-but-high", 9);
    store.link_entries(&base, &target, &rel, &early);
    store.link_entries(&base, &target, &rel, &late);
    let current = get_current(&store, &base, &rel).unwrap();
    assert_eq!(current, Some(String::from("early-but-high")));
}

#[test]
fn equal_counts_go_to_the_first_link() {
    let mut store = Store::new();
    let base = String::from("base");
    let rel = String::from("head");
    let target = String::from("target");
    store.link_entries(&base, &target, &rel, &make_tag("first", 4));
    store.link_entries(&base, &target, &rel, &make_tag("second", 4));
    let current = get_current(&store, &base, &rel).unwrap();
    assert_eq!(current, Some(String::from("first")));
}

#[test]
fn empty_log_reads_nothing() {
    let store = Store::new();
    let r = get_current(&store, &String::from("base"), &String::from("head")).unwrap();
    assert_eq!(r, None);
}

#[test]
fn malformed_log_entry_is_a_decode_error() {
    let mut store = Store::new();
    let base = String::from("base");
    let rel = String::from("head");
    let target = String::from("target");
    store.link_entries(&base, &target, &rel, &String::from("not a tag"));
    let r = get_current(&store, &base, &rel);
    assert!(matches!(r, Err(UprtclError::Malformed)));
}

#[test]
fn logs_of_different_relations_do_not_mix() {
    let mut store = Store::new();
    let base = String::from("base");
    let target = String::from("target");
    set_current(&mut store, &base, &String::from("head"), &target, &String::from("h"));
    set_current(&mut store, &base, &String::from("name"), &target, &String::from("n"));
    let h = get_current(&store, &base, &String::from("head")).unwrap();
    let n = get_current(&store, &base, &String::from("name")).unwrap();
    assert_eq!(h, Some(String::from("h")));
    assert_eq!(n, Some(String::from("n")));
}

#[test]
fn leading_zeros_in_the_counter_parse() {
    let (v, c) = parse_tag("content:x,count:007").unwrap();
    assert_eq!(v, "x");
    assert_eq!(c, 7);
}
