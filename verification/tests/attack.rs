use rpg_system_2d::attack::{
    attack, attack_duration, combat_tick, hit, Attack, AttackEvent, CombatWorld, Facing,
    FacingEntry, Hitbox, ATTACK_DURATION_MICROS,
};
use rpg_system_2d::collision::CollisionSignal;
use rpg_system_2d::math::{Extent2, Placement};

fn combat_world(next_id: u64) -> CombatWorld {
    CombatWorld { hitboxes: Vec::new(), enemies: Vec::new(), next_id }
}

#[test]
fn attack_spawns_hitbox_along_facing() {
    let mut world = combat_world(100);
    let events = vec![AttackEvent { entity: 5 }];
    let facings = vec![FacingEntry { id: 5, facing: Facing::default() }];

    attack(&mut world, &events, &facings);

    assert_eq!(world.hitboxes.len(), 1);
    let hb = world.hitboxes[0];
    assert_eq!(hb.id, 100);
    assert_eq!(hb.parent, 5);
    assert_eq!(hb.offset, Placement::from_xyz(80, 0, 0));
    assert_eq!(hb.footprint, Extent2 { x: 40, y: 40 });
    assert_eq!(hb.attack, Attack::default());
    assert_eq!(world.next_id, 101);
}

#[test]
fn attack_without_facing_is_ignored() {
    let mut world = combat_world(100);
    let events = vec![AttackEvent { entity: 5 }, AttackEvent { entity: 6 }];
    let facings = vec![FacingEntry { id: 6, facing: Facing { x: 0, y: -1 } }];

    attack(&mut world, &events, &facings);

    assert_eq!(world.hitboxes.len(), 1);
    assert_eq!(world.hitboxes[0].parent, 6);
    assert_eq!(world.hitboxes[0].offset, Placement::from_xyz(0, -80, 0));
}

fn fresh_hitbox(id: u64, elapsed_micros: u64) -> Hitbox {
    Hitbox {
        id,
        parent: 1,
        offset: Placement::from_xyz(80, 0, 0),
        footprint: Extent2 { x: 40, y: 40 },
        attack: Attack { elapsed_micros },
    }
}

#[test]
fn attack_survives_until_duration() {
    let mut world = combat_world(100);
    world.hitboxes.push(fresh_hitbox(10, 0));

    attack_duration(&mut world, ATTACK_DURATION_MICROS - 1);
    assert_eq!(world.hitboxes.len(), 1);
    assert_eq!(world.hitboxes[0].attack.elapsed_micros, ATTACK_DURATION_MICROS - 1);

    attack_duration(&mut world, 1);
    assert!(world.hitboxes.is_empty());
}

#[test]
fn attack_expires_exactly_at_duration() {
    // The boundary is deterministic: a total exactly equal to the duration
    // despawns the hitbox.
    let mut world = combat_world(100);
    world.hitboxes.push(fresh_hitbox(10, 0));
    attack_duration(&mut world, ATTACK_DURATION_MICROS);
    assert!(world.hitboxes.is_empty());
}

#[test]
fn duration_only_touches_expired() {
    let mut world = combat_world(100);
    world.hitboxes.push(fresh_hitbox(10, ATTACK_DURATION_MICROS - 5));
    world.hitboxes.push(fresh_hitbox(11, 0));
    attack_duration(&mut world, 10);
    assert_eq!(world.hitboxes.len(), 1);
    assert_eq!(world.hitboxes[0].id, 11);
    assert_eq!(world.hitboxes[0].attack.elapsed_micros, 10);
}

#[test]
fn hit_despawns_struck_enemies() {
    let mut world = combat_world(100);
    world.hitboxes.push(fresh_hitbox(10, 0));
    world.enemies.push(7);
    world.enemies.push(8);
    world.enemies.push(9);
    // Both orderings of the raw signal must match; unrelated pairs and ended
    // contacts must not.
    let collisions = vec![
        CollisionSignal::Started(7, 10),
        CollisionSignal::Started(10, 8),
        CollisionSignal::Started(3, 4),
        CollisionSignal::Ended(10, 9),
    ];

    hit(&mut world, &collisions);

    assert_eq!(world.enemies, vec![9]);
    assert_eq!(world.hitboxes.len(), 1);
}

#[test]
fn same_tick_spawn_and_hit() {
    // The hitbox spawned this tick registers a hit in its very first tick
    // and still lives at the tick's end; the struck enemy is gone.
    let mut world = combat_world(100);
    world.enemies.push(7);
    let events = vec![AttackEvent { entity: 5 }];
    let facings = vec![FacingEntry { id: 5, facing: Facing::default() }];
    let collisions = vec![CollisionSignal::Started(7, 100)];

    combat_tick(&mut world, &events, &facings, &collisions, 16_000);

    assert!(world.enemies.is_empty());
    assert_eq!(world.hitboxes.len(), 1);
    assert_eq!(world.hitboxes[0].attack.elapsed_micros, 16_000);
}

#[test]
fn multiple_hits_in_one_swing() {
    // Unlike the transition detector's single-winner policy, every enemy
    // struck in one tick dies.
    let mut world = combat_world(100);
    world.hitboxes.push(fresh_hitbox(10, 0));
    world.enemies.push(7);
    world.enemies.push(8);
    let collisions = vec![
        CollisionSignal::Started(10, 7),
        CollisionSignal::Started(10, 8),
    ];

    hit(&mut world, &collisions);

    assert!(world.enemies.is_empty());
}

#[test]
fn countdown_saturates_instead_of_wrapping() {
    let mut world = combat_world(100);
    world.hitboxes.push(fresh_hitbox(10, u64::MAX - 3));
    attack_duration(&mut world, 10);
    assert!(world.hitboxes.is_empty());
}
