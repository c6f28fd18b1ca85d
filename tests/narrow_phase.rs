use airmash::bucket::{Bucket, Collision};
use airmash::circle::{overlaps, HitCircle};

fn hc(x: i32, y: i32, rad: u32, layer: u16, ent: u32) -> HitCircle {
    HitCircle { x, y, rad, layer, ent }
}

#[test]
fn same_nonzero_layer_never_overlaps() {
    let a = hc(0, 0, 10, 1, 1);
    let b = hc(0, 0, 10, 1, 2);
    assert!(!overlaps(&a, &b));
    let far = hc(1000, 0, 10, 1, 3);
    assert!(!overlaps(&a, &far));
}

#[test]
fn neutral_layer_never_exempts() {
    let a = hc(0, 0, 10, 0, 1);
    let b = hc(5, 5, 10, 0, 2);
    assert!(overlaps(&a, &b));
    let c = hc(5, 5, 10, 3, 3);
    assert!(overlaps(&a, &c));
}

#[test]
fn touching_circles_overlap_and_apart_do_not() {
    let a = hc(0, 0, 3, 1, 1);
    let b = hc(3, 4, 2, 2, 2);
    assert!(overlaps(&a, &b));
    let c = hc(3, 4, 1, 2, 3);
    assert!(!overlaps(&a, &c));
}

#[test]
fn extreme_coordinates_do_not_overflow() {
    let a = hc(i32::MIN, i32::MIN, u32::MAX, 1, 1);
    let b = hc(i32::MAX, i32::MAX, u32::MAX, 2, 2);
    assert!(overlaps(&a, &b));
    let c = hc(i32::MAX, i32::MAX, 0, 2, 2);
    let d = hc(i32::MIN, i32::MIN, 0, 1, 1);
    assert!(!overlaps(&c, &d));
}

#[test]
fn contact_reported_once_when_probed_directly() {
    let mut bucket = Bucket::new();
    let b = hc(10, 0, 5, 2, 2);
    bucket.insert(b);
    let a = hc(0, 0, 6, 1, 1);
    let mut out: Vec<Collision> = Vec::new();
    bucket.collide(&a, &mut out);
    assert_eq!(out, vec![Collision { a, b }]);
}

#[test]
fn bucket_all_pairs_skips_baseline_pairs() {
    let mut bucket = Bucket::new();
    let t1 = hc(0, 0, 10, 0, 100);
    let t2 = hc(5, 0, 10, 0, 101);
    bucket.insert(t1);
    bucket.insert(t2);
    bucket.freeze();
    assert_eq!(bucket.fixed, 2);
    let mut out: Vec<Collision> = Vec::new();
    bucket.collide_all(&mut out);
    assert!(out.is_empty());
    let p = hc(3, 0, 1, 1, 7);
    bucket.insert(p);
    bucket.collide_all(&mut out);
    assert_eq!(out, vec![Collision { a: p, b: t1 }, Collision { a: p, b: t2 }]);
}

#[test]
fn bucket_all_pairs_tests_each_pair_once() {
    let mut bucket = Bucket::new();
    let a = hc(0, 0, 10, 1, 1);
    let b = hc(1, 0, 10, 2, 2);
    let c = hc(2, 0, 10, 3, 3);
    bucket.insert(a);
    bucket.insert(b);
    bucket.insert(c);
    let mut out: Vec<Collision> = Vec::new();
    bucket.collide_all(&mut out);
    assert_eq!(
        out,
        vec![Collision { a: b, b: a }, Collision { a: c, b: a }, Collision { a: c, b: b }]
    );
}
