use airmash::bucket::Collision;
use airmash::circle::HitCircle;
use airmash::collision::{dedup_collisions, CollisionSystem, Terrain};
use airmash::connection::ConnectionType;
use airmash::index::GridDims;
use airmash::player_missile::{PlayerMissileCollision, PlayerMissileCollisionSystem};

fn hc(x: i32, y: i32, rad: u32, layer: u16, ent: u32) -> HitCircle {
    HitCircle { x, y, rad, layer, ent }
}

fn world() -> GridDims {
    GridDims::new(32768, 32768, 128, 64).unwrap()
}

fn player_missile_collisions(
    dims: &GridDims,
    players: &Vec<HitCircle>,
    missiles: &Vec<HitCircle>,
    live: &Vec<u32>,
) -> Vec<PlayerMissileCollision> {
    PlayerMissileCollisionSystem::new().run(dims, players, missiles, live)
}

fn system(obstacles: Vec<HitCircle>) -> CollisionSystem {
    CollisionSystem::new(Terrain::new(world(), &obstacles))
}

#[test]
fn players_of_different_teams_collide_once() {
    let sys = system(vec![]);
    let a = hc(1000, 1000, 30, 1, 1);
    let b = hc(1020, 1000, 30, 2, 2);
    let out = sys.run(&vec![a, b]);
    assert_eq!(out, vec![Collision { a: b, b: a }]);
}

#[test]
fn players_of_same_team_do_not_collide() {
    let sys = system(vec![]);
    let a = hc(1000, 1000, 30, 1, 1);
    let c = hc(1020, 1000, 30, 1, 3);
    assert!(sys.run(&vec![a, c]).is_empty());
}

#[test]
fn pair_in_many_shared_cells_is_reported_once() {
    let sys = system(vec![]);
    let a = hc(256, 512, 40, 1, 1);
    let b = hc(250, 510, 40, 2, 2);
    let out = sys.run(&vec![a, b]);
    assert_eq!(out.len(), 1);
}

#[test]
fn entity_with_many_circles_is_reported_once_per_partner() {
    let sys = system(vec![]);
    let a1 = hc(1000, 1000, 30, 1, 1);
    let a2 = hc(1010, 1000, 30, 1, 1);
    let b = hc(1020, 1000, 30, 2, 2);
    let out = sys.run(&vec![a1, a2, b]);
    assert_eq!(out, vec![Collision { a: b, b: a1 }]);
}

#[test]
fn player_hits_terrain() {
    let sys = system(vec![hc(5000, 5000, 100, 0, 900), hc(5100, 5000, 100, 0, 900)]);
    let p = hc(5050, 5090, 20, 1, 1);
    let out = sys.run(&vec![p]);
    assert_eq!(out.len(), 1);
    assert_eq!(out[0].a, p);
    assert_eq!(out[0].b.ent, 900);
}

#[test]
fn terrain_circles_never_collide_with_each_other() {
    let sys = system(vec![hc(5000, 5000, 100, 0, 900), hc(5050, 5000, 100, 0, 901)]);
    assert!(sys.run(&vec![]).is_empty());
}

#[test]
fn terrain_unchanged_after_many_empty_ticks() {
    let sys = system(vec![hc(5000, 5000, 100, 0, 900), hc(300, 300, 400, 0, 901)]);
    let before: Vec<(Vec<HitCircle>, usize)> = sys
        .terrain_ref()
        .grid()
        .buckets
        .iter()
        .map(|b| (b.circles.clone(), b.fixed))
        .collect();
    for _ in 0..5 {
        assert!(sys.run(&vec![]).is_empty());
    }
    sys.run(&vec![hc(5000, 5000, 10, 1, 1)]);
    let after: Vec<(Vec<HitCircle>, usize)> = sys
        .terrain_ref()
        .grid()
        .buckets
        .iter()
        .map(|b| (b.circles.clone(), b.fixed))
        .collect();
    assert_eq!(before, after);
    assert_eq!(before.iter().filter(|b| b.1 > 0).count() > 0, true);
}

#[test]
fn dedup_drops_self_contacts_and_repeats() {
    let a = hc(0, 0, 5, 1, 1);
    let a2 = hc(1, 0, 5, 0, 1);
    let b = hc(2, 0, 5, 2, 2);
    let raw = vec![
        Collision { a, b: a2 },
        Collision { a, b },
        Collision { a: b, b: a },
        Collision { a: a2, b },
    ];
    assert_eq!(dedup_collisions(&raw), vec![Collision { a, b }]);
}

#[test]
fn missile_does_not_hit_teammate() {
    let m = hc(2000, 2000, 10, 1, 50);
    let p = hc(2005, 2000, 20, 1, 7);
    let out = player_missile_collisions(&world(), &vec![p], &vec![m], &vec![50, 7]);
    assert!(out.is_empty());
}

#[test]
fn missile_hits_enemy_once() {
    let m = hc(2000, 2000, 10, 1, 50);
    let p = hc(2005, 2000, 20, 2, 7);
    let out = player_missile_collisions(&world(), &vec![p], &vec![m], &vec![50, 7]);
    assert_eq!(out, vec![PlayerMissileCollision { missile: 50, player: 7, x: 2000, y: 2000 }]);
}

#[test]
fn missile_with_many_blast_circles_hits_player_once() {
    let m1 = hc(256, 512, 30, 1, 50);
    let m2 = hc(260, 515, 30, 1, 50);
    let p1 = hc(250, 510, 20, 2, 7);
    let p2 = hc(262, 512, 20, 2, 7);
    let out = player_missile_collisions(&world(), &vec![p1, p2], &vec![m1, m2], &vec![50]);
    assert_eq!(out.len(), 1);
    assert_eq!((out[0].missile, out[0].player), (50, 7));
}

#[test]
fn despawned_missile_is_excluded() {
    let m = hc(2000, 2000, 10, 1, 50);
    let p = hc(2005, 2000, 20, 2, 7);
    let out = player_missile_collisions(&world(), &vec![p], &vec![m], &vec![7]);
    assert!(out.is_empty());
}

#[test]
fn one_missile_two_players() {
    let m = hc(2000, 2000, 50, 0, 50);
    let p = hc(2040, 2000, 20, 2, 7);
    let q = hc(1960, 2000, 20, 3, 8);
    let r = hc(3000, 2000, 20, 3, 9);
    let mut out = player_missile_collisions(&world(), &vec![p, q, r], &vec![m], &vec![50]);
    out.sort_by_key(|e| e.player);
    assert_eq!(
        out,
        vec![
            PlayerMissileCollision { missile: 50, player: 7, x: 2000, y: 2000 },
            PlayerMissileCollision { missile: 50, player: 8, x: 2000, y: 2000 },
        ]
    );
}

#[test]
fn connection_types_compare() {
    assert_eq!(ConnectionType::Primary, ConnectionType::Primary);
    assert_ne!(ConnectionType::Primary, ConnectionType::Backup);
    assert_ne!(ConnectionType::Backup, ConnectionType::Inactive);
}
