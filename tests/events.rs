use airmash::bounded_queue::BoundedQueue;
use airmash::entity::{place, place_hit_circles, validate_config, CircleDef, EntityState, Heading};

#[test]
fn queue_push_pop_in_order() {
    let mut q: BoundedQueue<u32> = BoundedQueue::new(3);
    assert!(q.is_empty());
    assert_eq!(q.capacity(), 3);
    assert_eq!(q.push(1), None);
    assert_eq!(q.push(2), None);
    assert_eq!(q.peek(), Some(&1));
    assert_eq!(q.len(), 2);
    assert_eq!(q.pop(), Some(1));
    assert_eq!(q.pop(), Some(2));
    assert_eq!(q.pop(), None);
    assert_eq!(q.peek(), None);
}

#[test]
fn queue_full_evicts_oldest() {
    let mut q: BoundedQueue<u32> = BoundedQueue::new(2);
    q.push(1);
    q.push(2);
    assert!(q.is_full());
    assert_eq!(q.push(3), Some(1));
    assert_eq!(q.len(), 2);
    assert_eq!(q.pop(), Some(2));
    assert_eq!(q.pop(), Some(3));
}

#[test]
fn queue_of_capacity_zero_hands_value_back() {
    let mut q: BoundedQueue<u32> = BoundedQueue::new(0);
    assert_eq!(q.push(9), Some(9));
    assert!(q.is_empty());
    assert!(q.is_full());
}

#[test]
fn queue_push_all_keeps_newest() {
    let mut q: BoundedQueue<u32> = BoundedQueue::new(3);
    q.push(1);
    q.push_all(&vec![2, 3, 4, 5]);
    assert_eq!(q.len(), 3);
    assert_eq!(q.pop(), Some(3));
    assert_eq!(q.pop(), Some(4));
    assert_eq!(q.pop(), Some(5));
}

fn ent(ent: u32, x: i32, y: i32, cos: i32, sin: i32, kind: usize) -> EntityState {
    EntityState { ent, x, y, heading: Heading { cos, sin }, layer: 2, kind }
}

#[test]
fn place_at_heading_zero_adds_offset() {
    let e = ent(1, 100, 200, 65536, 0, 0);
    let c = place(&e, &CircleDef { dx: 10, dy: -5, rad: 7 });
    assert_eq!((c.x, c.y, c.rad, c.layer, c.ent), (110, 195, 7, 2, 1));
}

#[test]
fn place_quarter_turn_rotates_offset() {
    let e = ent(1, 100, 200, 0, 65536, 0);
    let c = place(&e, &CircleDef { dx: 10, dy: 0, rad: 7 });
    assert_eq!((c.x, c.y), (100, 210));
}

#[test]
fn place_rounds_down() {
    let e = ent(1, 0, 0, 32768, 0, 0);
    let c = place(&e, &CircleDef { dx: -3, dy: 3, rad: 1 });
    assert_eq!((c.x, c.y), (-2, 1));
}

#[test]
fn place_saturates_at_i32_range() {
    let e = ent(1, i32::MAX, i32::MIN, 65536, 0, 0);
    let c = place(&e, &CircleDef { dx: 100, dy: -100, rad: 1 });
    assert_eq!((c.x, c.y), (i32::MAX, i32::MIN));
}

#[test]
fn unconfigured_entity_is_skipped() {
    let config = vec![vec![CircleDef { dx: 0, dy: 0, rad: 5 }, CircleDef { dx: 10, dy: 0, rad: 3 }]];
    let es = vec![ent(1, 0, 0, 65536, 0, 0), ent(2, 50, 50, 65536, 0, 4)];
    let p = place_hit_circles(&es, &config);
    assert_eq!(p.skipped, vec![2]);
    assert_eq!(p.circles.len(), 2);
    assert_eq!((p.circles[1].x, p.circles[1].rad), (10, 3));
}

#[test]
fn config_with_zero_radius_is_rejected() {
    assert!(validate_config(&vec![vec![CircleDef { dx: 0, dy: 0, rad: 5 }]]));
    assert!(!validate_config(&vec![vec![], vec![CircleDef { dx: 0, dy: 0, rad: 0 }]]));
}
