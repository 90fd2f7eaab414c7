//! Span arithmetic: sizes, overlap, trimming, merging, subtraction.

use rustc_plugin::span::SpanData;
use rustc_plugin::span::SpanDataExt;

fn mk(lo: u32, hi: u32) -> SpanData {
    SpanData { lo, hi }
}

#[test]
fn test_span_subtract() {
    let outer = mk(1, 10);
    let inner: Vec<SpanData> = vec![mk(0, 2), mk(3, 4), mk(3, 5), mk(7, 8), mk(9, 13)];
    let desired: Vec<SpanData> = vec![mk(2, 3), mk(5, 7), mk(8, 9)];
    assert_eq!(outer.subtract(inner), desired);
}

#[test]
fn subtract_without_overlapping_children_returns_the_span() {
    let outer = mk(10, 20);
    assert_eq!(outer.subtract(vec![]), vec![mk(10, 20)]);
    assert_eq!(outer.subtract(vec![mk(0, 5), mk(30, 40)]), vec![mk(10, 20)]);
}

#[test]
fn subtract_keeps_head_and_tail() {
    let outer = mk(0, 10);
    assert_eq!(outer.subtract(vec![mk(3, 5)]), vec![mk(0, 3), mk(5, 10)]);
}

#[test]
fn merge_joins_touching_and_overlapping_spans() {
    let merged = SpanData::merge_overlaps(vec![mk(5, 7), mk(0, 2), mk(2, 4), mk(6, 9)]);
    assert_eq!(merged, vec![mk(0, 4), mk(5, 9)]);
}

#[test]
fn merge_of_nothing_is_nothing() {
    assert_eq!(SpanData::merge_overlaps(vec![]), Vec::<SpanData>::new());
}

#[test]
fn overlap_includes_boundaries() {
    assert!(mk(0, 2).overlaps_inclusive(mk(2, 4)));
    assert!(!mk(0, 2).overlaps_inclusive(mk(3, 4)));
}

#[test]
fn trimming() {
    assert_eq!(mk(1, 10).trim_end(mk(4, 6)), Some(mk(1, 4)));
    assert_eq!(mk(5, 10).trim_end(mk(4, 6)), None);
    assert_eq!(mk(1, 10).trim_start(mk(4, 6)), Some(mk(6, 10)));
    assert_eq!(mk(1, 5).trim_start(mk(4, 6)), None);
    assert_eq!(mk(2, 4).between(mk(7, 9)), mk(4, 7));
    assert_eq!(mk(2, 4).to(mk(7, 9)), mk(2, 9));
}

#[test]
fn sizes() {
    assert_eq!(mk(3, 10).size(), 7);
    assert_eq!(mk(4, 4).size(), 0);
}
