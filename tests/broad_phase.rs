use airmash::circle::HitCircle;
use airmash::index::{intersected_buckets, GridDims};

fn hc(x: i32, y: i32, rad: u32) -> HitCircle {
    HitCircle { x, y, rad, layer: 0, ent: 1 }
}

fn world() -> GridDims {
    GridDims::new(32768, 32768, 128, 64).unwrap()
}

#[test]
fn reference_grid_cell_size() {
    let g = world();
    assert_eq!(g.cols, 128);
    assert_eq!(g.rows, 64);
    assert_eq!(g.cell_w, 256);
    assert_eq!(g.cell_h, 512);
}

#[test]
fn circle_at_origin_maps_to_single_cell() {
    let g = world();
    assert_eq!(intersected_buckets(&g, &hc(0, 0, 10)), vec![(0, 0)]);
}

#[test]
fn circle_across_cell_borders_maps_to_each_cell() {
    let g = world();
    let mut cells = intersected_buckets(&g, &hc(256, 512, 10));
    cells.sort();
    assert_eq!(cells, vec![(0, 0), (0, 1), (1, 0), (1, 1)]);
}

#[test]
fn circle_outside_world_maps_to_no_cell() {
    let g = world();
    assert!(intersected_buckets(&g, &hc(-1000, -1000, 10)).is_empty());
    assert!(intersected_buckets(&g, &hc(40000, 100, 10)).is_empty());
}

#[test]
fn large_circle_is_clamped_to_grid() {
    let g = GridDims::new(100, 100, 4, 2).unwrap();
    let cells = intersected_buckets(&g, &hc(50, 50, 1000));
    assert_eq!(cells.len(), 8);
}

#[test]
fn overlapping_circles_share_a_cell() {
    let g = world();
    let c = hc(250, 100, 10);
    let d = hc(265, 100, 10);
    let a = intersected_buckets(&g, &c);
    let b = intersected_buckets(&g, &d);
    assert!(a.iter().any(|p| b.contains(p)));
}

#[test]
fn grid_dims_rejects_degenerate_shapes() {
    assert!(GridDims::new(100, 100, 0, 2).is_none());
    assert!(GridDims::new(100, 100, 2, 0).is_none());
    assert!(GridDims::new(3, 100, 4, 2).is_none());
    assert!(GridDims::new(100, 1, 4, 2).is_none());
    let g = GridDims::new(100, 90, 3, 4).unwrap();
    assert_eq!((g.cell_w, g.cell_h), (33, 22));
}
