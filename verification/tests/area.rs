use rpg_system_2d::area::{
    area_startup_system, area_transition_check, collision_source, transition_tick, Area,
    AreaIdentifier, AreaTransitionEvent, AreaWorld, Color, GameAreas, Passage, PassageDestination,
    TaggedEntity,
};
use rpg_system_2d::collision::CollisionSignal;
use rpg_system_2d::math::{Extent2, Placement};
use rpg_system_2d::player::Player;

fn empty_world(player: Option<Player>, next_id: u64) -> AreaWorld {
    AreaWorld {
        background: Color::rgb(0, 0, 0),
        passages: Vec::new(),
        player,
        tagged: Vec::new(),
        next_id,
    }
}

/// Coordinates are in tenths of a unit so fractional footprints stay exact.
fn test_player(x: i64, y: i64, z: i64, side: i64) -> Player {
    Player {
        id: 1,
        position: Placement::from_xyz(x, y, z),
        footprint: Extent2 { x: side, y: side },
    }
}

#[test]
fn transitions_are_detected() {
    // Player of side 60 moved to (10, 10); one passage at (12, 12) with a
    // 2-by-2 footprint leading to area 1 at (20, 20).
    let player = test_player(10, 10, 1, 60);
    let passage = Passage::new(
        Placement::from_xyz(12, 12, 100),
        Extent2 { x: 2, y: 2 },
        1.into(),
        Placement::from_xyz(20, 20, 2),
    );
    let mut world = empty_world(Some(player), 2);
    let bundle = passage.bundle(world.next_id);
    world.passages.push(bundle);
    world.next_id += 1;

    let collisions = collision_source(&world);
    let ev = area_transition_check(&collisions, &world);
    assert_eq!(
        ev,
        Some(AreaTransitionEvent(PassageDestination(
            1.into(),
            Placement::from_xyz(20, 20, 2)
        )))
    );
    // At most one event can be emitted per tick: the detector's whole output
    // is the single value asserted above.
    assert_eq!(collisions.len(), 1);
}

#[test]
fn multiple_collisions_send_one_event() {
    // All coordinates in tenths: the player's 2.1-by-2.1 footprint at
    // (10, 10) overlaps both passages' 2-by-2 footprints.
    let player = test_player(100, 100, 10, 21);
    let destination1 = PassageDestination(1.into(), Placement::from_xyz(200, 200, 20));
    let destination2 = PassageDestination(2.into(), Placement::from_xyz(250, 250, 100));
    let passage1 = Passage::new(
        Placement::from_xyz(120, 120, 1000),
        Extent2 { x: 20, y: 20 },
        destination1.0,
        destination1.1,
    );
    let passage2 = Passage::new(
        Placement::from_xyz(80, 80, 1000),
        Extent2 { x: 20, y: 20 },
        destination2.0,
        destination2.1,
    );
    let mut world = empty_world(Some(player), 2);
    let b1 = passage1.bundle(world.next_id);
    world.passages.push(b1);
    world.next_id += 1;
    let b2 = passage2.bundle(world.next_id);
    world.passages.push(b2);
    world.next_id += 1;

    let collisions = collision_source(&world);
    assert_eq!(collisions.len(), 2);
    let ev = area_transition_check(&collisions, &world);
    let received_destination = ev.expect("one event must be emitted").0;
    assert!(received_destination == destination1 || received_destination == destination2);
}

/// Coordinates in tenths of a unit.
fn get_test_areas() -> GameAreas {
    let passage_out1 = Passage {
        transform: Placement::from_xyz(120, 120, 1000),
        footprint: Extent2 { x: 20, y: 20 },
        destination: 1.into(),
        destination_transform: Placement::from_xyz(200, 200, 20),
    };
    let passage_out2 = Passage {
        transform: Placement::from_xyz(920, 920, 1000),
        footprint: Extent2 { x: 20, y: 20 },
        destination: 1.into(),
        destination_transform: Placement::from_xyz(500, 500, 50),
    };
    let passage_in1 = Passage {
        transform: Placement::from_xyz(600, 600, 1000),
        footprint: Extent2 { x: 20, y: 20 },
        destination: 0.into(),
        destination_transform: Placement::from_xyz(400, 400, 80),
    };
    let passage_in2 = Passage {
        transform: Placement::from_xyz(1600, 1600, 1000),
        footprint: Extent2 { x: 20, y: 20 },
        destination: 0.into(),
        destination_transform: Placement::from_xyz(1400, 1400, 180),
    };
    GameAreas {
        areas: vec![
            Area {
                color: Color::rgb(125, 820, 325),
                passages: vec![passage_out1, passage_out2],
            },
            Area {
                color: Color::rgb(251, 521, 382),
                passages: vec![passage_in1, passage_in2],
            },
        ],
    }
}

fn check_area_is_loaded(world: &AreaWorld, area: &Area) {
    assert_eq!(area.color, world.background);
    let mut expected_passages = area.passages.clone();
    for bundle in &world.passages {
        let pos = expected_passages.iter().position(|passage| {
            *passage
                == Passage {
                    transform: bundle.transform,
                    footprint: bundle.footprint,
                    destination: bundle.destination.0,
                    destination_transform: bundle.destination.1,
                }
        });
        assert!(pos.is_some());
        expected_passages.remove(pos.unwrap());
    }
    assert!(expected_passages.is_empty());
}

#[test]
fn area_transition() {
    let areas = get_test_areas();
    let player = test_player(100, 100, 10, 21);
    let mut world = empty_world(Some(player), 2);
    area_startup_system(&mut world, &areas);

    let collisions = collision_source(&world);
    let ev = area_transition_check(&collisions, &world).expect("the overlap must be detected");
    rpg_system_2d::area::area_transition(&mut world, &ev, &areas);

    let moved = world.player.expect("the player still exists");
    assert_eq!(moved.position, areas.areas[0].passages[0].destination_transform);
    check_area_is_loaded(&world, &areas.areas[1]);
}

#[test]
fn area_transition_drawing() {
    let enemy_tag = TaggedEntity {
        id: 9,
        area: AreaIdentifier(1),
        visible: false,
    };
    let mut world = empty_world(None, 10);
    world.tagged.push(enemy_tag);
    let event = AreaTransitionEvent(PassageDestination(1.into(), Placement::from_xyz(0, 0, 0)));

    rpg_system_2d::area::area_transition_drawing(&mut world, &event);

    assert_eq!(world.tagged.len(), 1);
    assert!(world.tagged[0].visible);
}

#[test]
fn drawing_hides_other_areas() {
    let mut world = empty_world(None, 10);
    world.tagged.push(TaggedEntity { id: 3, area: AreaIdentifier(0), visible: true });
    world.tagged.push(TaggedEntity { id: 4, area: AreaIdentifier(1), visible: false });
    world.tagged.push(TaggedEntity { id: 5, area: AreaIdentifier(2), visible: true });
    let event = AreaTransitionEvent(PassageDestination(1.into(), Placement::from_xyz(0, 0, 0)));

    rpg_system_2d::area::area_transition_drawing(&mut world, &event);

    assert!(!world.tagged[0].visible);
    assert!(world.tagged[1].visible);
    assert!(!world.tagged[2].visible);
}

#[test]
fn no_player_emits_no_event() {
    let passage = Passage::new(
        Placement::from_xyz(12, 12, 100),
        Extent2 { x: 2, y: 2 },
        1.into(),
        Placement::from_xyz(20, 20, 2),
    );
    let mut world = empty_world(None, 0);
    let bundle = passage.bundle(world.next_id);
    world.passages.push(bundle);
    world.next_id += 1;

    assert!(collision_source(&world).is_empty());
    let stray = vec![CollisionSignal::Started(1, 0), CollisionSignal::Ended(1, 0)];
    assert_eq!(area_transition_check(&stray, &world), None);
}

#[test]
fn round_trip_restores_starting_area() {
    // Two areas whose passages lead to each other: leaving area 0 and coming
    // back must restore area 0's registered passage set and its color.
    let to_area1 = Passage::new(
        Placement::from_xyz(120, 120, 10),
        Extent2 { x: 20, y: 20 },
        1.into(),
        Placement::from_xyz(595, 600, 10),
    );
    let to_area0 = Passage::new(
        Placement::from_xyz(600, 600, 10),
        Extent2 { x: 20, y: 20 },
        0.into(),
        Placement::from_xyz(100, 100, 10),
    );
    let areas = GameAreas::new(vec![
        Area::new(Color::rgb(10, 20, 30), vec![to_area1]),
        Area::new(Color::rgb(40, 50, 60), vec![to_area0]),
    ]);
    let player = test_player(100, 100, 10, 21);
    let mut world = empty_world(Some(player), 2);
    area_startup_system(&mut world, &areas);
    assert_eq!(world.background, Color::rgb(10, 20, 30));

    // Tick one: the player stands on the passage to area 1 and is sent to
    // (595, 600), overlapping area 1's passage back.
    let collisions = collision_source(&world);
    let ev = transition_tick(&mut world, &collisions, &areas);
    assert!(ev.is_some());
    assert_eq!(world.background, Color::rgb(40, 50, 60));

    // Tick two: the passage back fires and area 0 is restored.
    let collisions = collision_source(&world);
    let ev = transition_tick(&mut world, &collisions, &areas);
    assert!(ev.is_some());
    assert_eq!(world.background, Color::rgb(10, 20, 30));
    assert_eq!(world.player.unwrap().position, Placement::from_xyz(100, 100, 10));
    check_area_is_loaded(&world, &areas.areas[0]);
}

#[test]
fn concrete_scenario_single_tick() {
    // Area 0: color C0, one passage at (12, 12) leading to area 1 at
    // (20, 20). Area 1: color C1, no passages. Player at (10, 10) with a
    // 2.1-by-2.1 footprint against the passage's 2-by-2 footprint:
    // overlapping. Coordinates in tenths of a unit.
    let c0 = Color::rgb(1000, 0, 0);
    let c1 = Color::rgb(0, 1000, 0);
    let passage = Passage::new(
        Placement::from_xyz(120, 120, 10),
        Extent2 { x: 20, y: 20 },
        1.into(),
        Placement::from_xyz(200, 200, 10),
    );
    let areas = GameAreas::new(vec![
        Area::new(c0, vec![passage]),
        Area::new(c1, Vec::new()),
    ]);
    let player = test_player(100, 100, 10, 21);
    let mut world = empty_world(Some(player), 2);
    area_startup_system(&mut world, &areas);
    assert_eq!(world.background, c0);
    assert_eq!(world.passages.len(), 1);

    let collisions = collision_source(&world);
    let ev = transition_tick(&mut world, &collisions, &areas);
    assert_eq!(
        ev,
        Some(AreaTransitionEvent(PassageDestination(
            1.into(),
            Placement::from_xyz(200, 200, 10)
        )))
    );
    assert_eq!(world.player.unwrap().position, Placement::from_xyz(200, 200, 10));
    assert_eq!(world.background, c1);
    assert!(world.passages.is_empty());
}
