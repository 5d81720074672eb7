//! The combat trigger subsystem: attack hitboxes and hit resolution.
//!
//! An attack intent spawns a transient hitbox entity at a fixed offset along
//! the attacker's facing, parented to the attacker, with a fixed fire-once
//! countdown. Per tick, one system advances every countdown and despawns the
//! expired hitboxes, and another matches hitbox/enemy contacts from the
//! collision feed and despawns every struck enemy — unlike the transition
//! detector's single-winner policy, several enemies may legitimately die in
//! one swing.

use vstd::prelude::*;

use crate::collision::CollisionSignal;
use crate::collision::find_matching_collisions;
use crate::collision::matched_pair;
use crate::collision::matching_pairs;
use crate::math::Extent2;
use crate::math::Placement;
use crate::math::Vec3i;

verus! {

/// A hitbox lives this long once spawned, in microseconds of accumulated
/// elapsed simulation time.
pub const ATTACK_DURATION_MICROS: u64 = 500_000;

/// How far along the attacker's facing the hitbox is placed.
pub const ATTACK_OFFSET: i64 = 80;

/// Side length of the square hitbox footprint.
pub const ATTACK_SIDE: i64 = 40;

/// Largest magnitude a facing component may have for the executable offset
/// arithmetic to be free of overflow.
pub const FACING_LIMIT: i64 = 0x1_0000_0000;

/// The direction an entity attacks towards, as a unit-ish vector in the
/// embedding's fixed-point scale.
#[derive(Clone, Copy, Debug, PartialEq, Eq, Structural)]
pub struct Facing {
    pub x: i64,
    pub y: i64,
}

impl Facing {
    /// Components small enough for the executable offset arithmetic.
    pub open spec fn bounded(self) -> bool {
        &&& -FACING_LIMIT <= self.x <= FACING_LIMIT
        &&& -FACING_LIMIT <= self.y <= FACING_LIMIT
    }
}

impl Default for Facing {
    /// An entity faces towards positive X until told otherwise.
    fn default() -> (f: Facing)
        ensures
            f == (Facing { x: 1, y: 0 }),
    {
        Facing { x: 1, y: 0 }
    }
}

/// A discrete attack intent naming the acting entity, emitted at most once
/// per input edge by the embedding.
#[derive(Clone, Copy, Debug, PartialEq, Eq, Structural)]
pub struct AttackEvent {
    pub entity: u64,
}

/// The fire-once countdown a hitbox carries: how much elapsed time it has
/// accumulated since it spawned.
#[derive(Clone, Copy, Debug, PartialEq, Eq, Structural)]
pub struct Attack {
    pub elapsed_micros: u64,
}

impl Attack {
    /// The countdown has run its course; the hitbox must despawn.
    pub open spec fn finished(self) -> bool {
        self.elapsed_micros >= ATTACK_DURATION_MICROS
    }
}

impl Default for Attack {
    /// A fresh countdown with no elapsed time yet.
    fn default() -> (a: Attack)
        ensures
            a == (Attack { elapsed_micros: 0 }),
    {
        Attack { elapsed_micros: 0 }
    }
}

/// One live attack hitbox entity: parented to its attacker (so it inherits
/// later transform updates), placed at a fixed offset along the attacker's
/// facing, with a square sensor footprint and a running countdown.
#[derive(Clone, Copy, Debug, PartialEq, Eq, Structural)]
pub struct Hitbox {
    pub id: u64,
    pub parent: u64,
    pub offset: Placement,
    pub footprint: Extent2,
    pub attack: Attack,
}

/// One row of the facing store: which entity faces where.
#[derive(Clone, Copy, Debug, PartialEq, Eq, Structural)]
pub struct FacingEntry {
    pub id: u64,
    pub facing: Facing,
}

/// The slice of the entity store the combat subsystem reads and writes: the
/// live hitboxes, the live enemies (an enemy despawns with everything it
/// owns, so one record stands for the entity and its children), and the next
/// fresh entity identifier.
#[derive(Clone, Debug)]
pub struct CombatWorld {
    pub hitboxes: Vec<Hitbox>,
    pub enemies: Vec<u64>,
    pub next_id: u64,
}

/// Spec-level value of a `CombatWorld`.
#[verifier::ext_equal]
pub ghost struct CombatWorldView {
    pub hitboxes: Seq<Hitbox>,
    pub enemies: Seq<u64>,
    pub next_id: u64,
}

impl View for CombatWorld {
    type V = CombatWorldView;

    open spec fn view(&self) -> CombatWorldView {
        CombatWorldView { hitboxes: self.hitboxes@, enemies: self.enemies@, next_id: self.next_id }
    }
}

impl CombatWorldView {
    /// Entity identifiers are a consistent arena: every identifier in the
    /// store is below `next_id` and no two live entities share one.
    pub open spec fn wf(self) -> bool {
        &&& forall|a: int, b: int|
            0 <= a < b < self.hitboxes.len() ==> self.hitboxes[a].id != self.hitboxes[b].id
        &&& forall|i: int| 0 <= i < self.hitboxes.len() ==> (#[trigger] self.hitboxes[i]).id < self.next_id
        &&& forall|a: int, b: int| 0 <= a < b < self.enemies.len() ==> self.enemies[a] != self.enemies[b]
        &&& forall|i: int| 0 <= i < self.enemies.len() ==> #[trigger] self.enemies[i] < self.next_id
        &&& forall|i: int, j: int|
            0 <= i < self.hitboxes.len() && 0 <= j < self.enemies.len()
                ==> (#[trigger] self.hitboxes[i]).id != #[trigger] self.enemies[j]
    }
}

/// The facing of the first row naming `id`, if any does.
pub open spec fn facing_for(facings: Seq<FacingEntry>, id: u64) -> Option<Facing>
    decreases facings.len(),
{
    if facings.len() == 0 {
        None
    } else if facings[0].id == id {
        Some(facings[0].facing)
    } else {
        facing_for(facings.drop_first(), id)
    }
}

/// The facing of the first row naming `id`.
fn facing_of(facings: &Vec<FacingEntry>, id: u64) -> (r: Option<Facing>)
    ensures
        r == facing_for(facings@, id),
{
    let mut i: usize = 0;
    proof {
        assert(facings@.skip(0) =~= facings@);
    }
    while i < facings.len()
        invariant
            0 <= i <= facings@.len(),
            facing_for(facings@, id) == facing_for(facings@.skip(i as int), id),
        decreases facings@.len() - i,
    {
        proof {
            assert(facings@.skip(i as int)[0] == facings@[i as int]);
            assert(facings@.skip(i as int).drop_first() =~= facings@.skip(i + 1));
        }
        if facings[i].id == id {
            return Some(facings[i].facing);
        }
        i = i + 1;
    }
    None
}

/// A looked-up facing is one of the store's rows, so it inherits their bound.
proof fn lemma_facing_for_bounded(facings: Seq<FacingEntry>, id: u64)
    requires
        forall|i: int| 0 <= i < facings.len() ==> (#[trigger] facings[i]).facing.bounded(),
    ensures
        facing_for(facings, id) matches Some(f) ==> f.bounded(),
    decreases facings.len(),
{
    if facings.len() > 0 && facings[0].id != id {
        assert(forall|i: int|
            0 <= i < facings.drop_first().len() ==> (#[trigger] facings.drop_first()[i]).facing.bounded());
        lemma_facing_for_bounded(facings.drop_first(), id);
    }
}

/// The hitbox that an attack by `attacker` facing `f` spawns under the fresh
/// identifier `id`: offset by the fixed attack reach along the facing, with
/// the square sensor footprint and a fresh countdown.
pub open spec fn spawned_hitbox(attacker: u64, f: Facing, id: u64) -> Hitbox {
    Hitbox {
        id,
        parent: attacker,
        offset: Placement {
            translation: Vec3i {
                x: (f.x * ATTACK_OFFSET) as i64,
                y: (f.y * ATTACK_OFFSET) as i64,
                z: 0,
            },
        },
        footprint: Extent2 { x: ATTACK_SIDE, y: ATTACK_SIDE },
        attack: Attack { elapsed_micros: 0 },
    }
}

/// What one attack intent does to the store: an event naming an entity with
/// a facing spawns one hitbox under a fresh identifier; an event naming an
/// entity without a facing is silently ignored — the attack direction cannot
/// be determined, which is not an error.
pub open spec fn attack_step(w: CombatWorldView, ev: AttackEvent, facings: Seq<FacingEntry>) -> CombatWorldView {
    match facing_for(facings, ev.entity) {
        Some(f) => CombatWorldView {
            hitboxes: w.hitboxes.push(spawned_hitbox(ev.entity, f, w.next_id)),
            enemies: w.enemies,
            next_id: (w.next_id + 1) as u64,
        },
        None => w,
    }
}

/// What one tick's attack intents do to the store, in event order.
pub open spec fn attack_model(w: CombatWorldView, events: Seq<AttackEvent>, facings: Seq<FacingEntry>) -> CombatWorldView
    decreases events.len(),
{
    if events.len() == 0 {
        w
    } else {
        attack_model(attack_step(w, events[0], facings), events.drop_first(), facings)
    }
}

/// The attack-spawn system. For each of this tick's attack intents, in
/// order, spawns one hitbox along the named attacker's facing; intents whose
/// attacker has no facing are silently ignored.
pub fn attack(world: &mut CombatWorld, events: &Vec<AttackEvent>, facings: &Vec<FacingEntry>)
    requires
        old(world)@.wf(),
        old(world)@.next_id + events@.len() <= u64::MAX,
        forall|i: int| 0 <= i < facings@.len() ==> (#[trigger] facings@[i]).facing.bounded(),
    ensures
        final(world)@ == attack_model(old(world)@, events@, facings@),
        final(world)@.wf(),
{
    let ghost w0 = world@;
    let mut i: usize = 0;
    proof {
        assert(events@.skip(0) =~= events@);
    }
    while i < events.len()
        invariant
            0 <= i <= events@.len(),
            forall|k: int| 0 <= k < facings@.len() ==> (#[trigger] facings@[k]).facing.bounded(),
            attack_model(w0, events@, facings@) == attack_model(
                world@,
                events@.skip(i as int),
                facings@,
            ),
            world@.next_id + (events@.len() - i) <= u64::MAX,
            world@.wf(),
        decreases events@.len() - i,
    {
        proof {
            assert(events@.skip(i as int)[0] == events@[i as int]);
            assert(events@.skip(i as int).drop_first() =~= events@.skip(i + 1));
        }
        let ev = events[i];
        let ghost before = world@;
        match facing_of(facings, ev.entity) {
            Some(f) => {
                proof {
                    lemma_facing_for_bounded(facings@, ev.entity);
                }
                let id = world.next_id;
                world.hitboxes.push(
                    Hitbox {
                        id,
                        parent: ev.entity,
                        offset: Placement {
                            translation: Vec3i { x: f.x * ATTACK_OFFSET, y: f.y * ATTACK_OFFSET, z: 0 },
                        },
                        footprint: Extent2 { x: ATTACK_SIDE, y: ATTACK_SIDE },
                        attack: Attack { elapsed_micros: 0 },
                    },
                );
                world.next_id = id + 1;
                proof {
                    assert(world@ =~= attack_step(before, ev, facings@));
                }
            },
            None => {
                proof {
                    assert(world@ =~= attack_step(before, ev, facings@));
                }
            },
        }
        i = i + 1;
    }
    proof {
        assert(events@.skip(events@.len() as int) =~= Seq::<AttackEvent>::empty());
    }
}

/// A countdown after `delta` more microseconds of elapsed time have
/// accumulated; the total saturates rather than wraps.
pub open spec fn ticked_hitbox(h: Hitbox, delta: u64) -> Hitbox {
    let total = if h.attack.elapsed_micros + delta > u64::MAX {
        u64::MAX
    } else {
        (h.attack.elapsed_micros + delta) as u64
    };
    Hitbox {
        id: h.id,
        parent: h.parent,
        offset: h.offset,
        footprint: h.footprint,
        attack: Attack { elapsed_micros: total },
    }
}

/// The hitboxes surviving one tick of countdown advancement: every countdown
/// gains the tick's elapsed time, and a hitbox whose countdown has finished
/// is despawned, unconditionally.
pub open spec fn duration_model(hs: Seq<Hitbox>, delta: u64) -> Seq<Hitbox>
    decreases hs.len(),
{
    if hs.len() == 0 {
        Seq::empty()
    } else {
        let rest = duration_model(hs.drop_last(), delta);
        let t = ticked_hitbox(hs.last(), delta);
        if t.attack.finished() {
            rest
        } else {
            rest.push(t)
        }
    }
}

/// The duration system. Advances every hitbox's countdown by the tick's
/// elapsed time and despawns each hitbox whose countdown has finished. This
/// system is the sole owner of expiry despawns, so every expiring hitbox is
/// present to be despawned.
pub fn attack_duration(world: &mut CombatWorld, delta_micros: u64)
    ensures
        final(world)@.hitboxes == duration_model(old(world)@.hitboxes, delta_micros),
        final(world)@.enemies == old(world)@.enemies,
        final(world)@.next_id == old(world)@.next_id,
        old(world)@.wf() ==> final(world)@.wf(),
{
    let mut kept: Vec<Hitbox> = Vec::new();
    let mut i: usize = 0;
    while i < world.hitboxes.len()
        invariant
            0 <= i <= world@.hitboxes.len(),
            kept@ == duration_model(world@.hitboxes.take(i as int), delta_micros),
        decreases world@.hitboxes.len() - i,
    {
        let h = world.hitboxes[i];
        let total = if h.attack.elapsed_micros > u64::MAX - delta_micros {
            u64::MAX
        } else {
            h.attack.elapsed_micros + delta_micros
        };
        if total < ATTACK_DURATION_MICROS {
            kept.push(
                Hitbox {
                    id: h.id,
                    parent: h.parent,
                    offset: h.offset,
                    footprint: h.footprint,
                    attack: Attack { elapsed_micros: total },
                },
            );
        }
        proof {
            assert(world@.hitboxes.take(i + 1).drop_last() =~= world@.hitboxes.take(i as int));
            assert(world@.hitboxes.take(i + 1).last() == world@.hitboxes[i as int]);
        }
        i = i + 1;
    }
    proof {
        assert(world@.hitboxes.take(world@.hitboxes.len() as int) =~= world@.hitboxes);
    }
    world.hitboxes = kept;
    proof {
        if old(world)@.wf() {
            lemma_duration_model_elems(old(world)@.hitboxes, delta_micros);
            lemma_duration_model_distinct(old(world)@.hitboxes, delta_micros);
            assert forall|i: int|
                0 <= i < world@.hitboxes.len() implies (#[trigger] world@.hitboxes[i]).id
                < world@.next_id by {
                let j = choose|j: int|
                    0 <= j < old(world)@.hitboxes.len() && world@.hitboxes[i] == ticked_hitbox(
                        old(world)@.hitboxes[j],
                        delta_micros,
                    );
            }
            assert forall|i: int, j: int|
                0 <= i < world@.hitboxes.len() && 0 <= j < world@.enemies.len() implies (
            #[trigger] world@.hitboxes[i]).id != #[trigger] world@.enemies[j] by {
                let k = choose|k: int|
                    0 <= k < old(world)@.hitboxes.len() && world@.hitboxes[i] == ticked_hitbox(
                        old(world)@.hitboxes[k],
                        delta_micros,
                    );
                assert(world@.hitboxes[i].id == old(world)@.hitboxes[k].id);
                assert(world@.enemies[j] == old(world)@.enemies[j]);
                assert(old(world)@.hitboxes[k].id != old(world)@.enemies[j]);
            }
            assert(world@.enemies == old(world)@.enemies);
            assert(world@.hitboxes == duration_model(old(world)@.hitboxes, delta_micros));
            assert(forall|a: int, b: int|
                0 <= a < b < world@.hitboxes.len() ==> world@.hitboxes[a].id
                    != world@.hitboxes[b].id);
            assert(forall|a: int, b: int|
                0 <= a < b < world@.enemies.len() ==> world@.enemies[a] != world@.enemies[b]);
            assert(forall|i: int| 0 <= i < world@.enemies.len() ==> #[trigger] world@.enemies[i] < world@.next_id);
            assert(world@.wf());
        }
    }
}

/// Every survivor of the duration system is some old hitbox, ticked, whose
/// countdown has not finished.
proof fn lemma_duration_model_elems(hs: Seq<Hitbox>, delta: u64)
    ensures
        forall|i: int|
            0 <= i < duration_model(hs, delta).len() ==> exists|j: int|
                0 <= j < hs.len() && #[trigger] duration_model(hs, delta)[i] == ticked_hitbox(
                    hs[j],
                    delta,
                ),
        forall|i: int|
            0 <= i < duration_model(hs, delta).len() ==> !(#[trigger] duration_model(
                hs,
                delta,
            )[i]).attack.finished(),
    decreases hs.len(),
{
    if hs.len() > 0 {
        lemma_duration_model_elems(hs.drop_last(), delta);
        let out = duration_model(hs, delta);
        let rest = duration_model(hs.drop_last(), delta);
        assert forall|i: int| 0 <= i < out.len() implies exists|j: int|
            0 <= j < hs.len() && #[trigger] out[i] == ticked_hitbox(hs[j], delta) by {
            if i < rest.len() {
                let j = choose|j: int|
                    0 <= j < hs.drop_last().len() && rest[i] == ticked_hitbox(
                        hs.drop_last()[j],
                        delta,
                    );
                assert(out[i] == ticked_hitbox(hs[j], delta));
            } else {
                assert(out[i] == ticked_hitbox(hs[hs.len() - 1], delta));
            }
        }
    }
}

/// Distinct hitbox identifiers survive the duration system distinct.
proof fn lemma_duration_model_distinct(hs: Seq<Hitbox>, delta: u64)
    requires
        forall|a: int, b: int| 0 <= a < b < hs.len() ==> hs[a].id != hs[b].id,
    ensures
        forall|a: int, b: int|
            0 <= a < b < duration_model(hs, delta).len() ==> duration_model(hs, delta)[a].id
                != duration_model(hs, delta)[b].id,
    decreases hs.len(),
{
    if hs.len() > 0 {
        lemma_duration_model_distinct(hs.drop_last(), delta);
        lemma_duration_model_elems(hs.drop_last(), delta);
        let out = duration_model(hs, delta);
        let rest = duration_model(hs.drop_last(), delta);
        assert forall|a: int, b: int| 0 <= a < b < out.len() implies out[a].id != out[b].id by {
            if b == rest.len() {
                let j = choose|j: int|
                    0 <= j < hs.drop_last().len() && rest[a] == ticked_hitbox(
                        hs.drop_last()[j],
                        delta,
                    );
                assert(out[a].id == hs[j].id);
                assert(out[b].id == hs[hs.len() - 1].id);
            }
        }
    }
}

/// The identifiers of the live hitboxes, in order.
pub open spec fn hitbox_ids(hs: Seq<Hitbox>) -> Seq<u64> {
    hs.map_values(|h: Hitbox| h.id)
}

/// Whether the matched pairs of one tick strike the enemy `e`.
pub open spec fn struck_by(pairs: Seq<(u64, u64)>, e: u64) -> bool {
    exists|k: int| 0 <= k < pairs.len() && (#[trigger] pairs[k]).1 == e
}

/// The enemies surviving one tick's matched pairs: every struck enemy is
/// despawned, the rest stay, in order.
pub open spec fn surviving_enemies(enemies: Seq<u64>, pairs: Seq<(u64, u64)>) -> Seq<u64>
    decreases enemies.len(),
{
    if enemies.len() == 0 {
        Seq::empty()
    } else {
        let rest = surviving_enemies(enemies.drop_last(), pairs);
        if struck_by(pairs, enemies.last()) {
            rest
        } else {
            rest.push(enemies.last())
        }
    }
}

/// What one tick of hit resolution does to the store: every enemy paired
/// with a live hitbox by a started contact, in either ordering, is despawned
/// with everything it owns; all simultaneous hits are processed.
pub open spec fn hit_model(w: CombatWorldView, sigs: Seq<CollisionSignal>) -> CombatWorldView {
    CombatWorldView {
        hitboxes: w.hitboxes,
        enemies: surviving_enemies(w.enemies, matching_pairs(sigs, hitbox_ids(w.hitboxes), w.enemies)),
        next_id: w.next_id,
    }
}

/// Whether any of this tick's matched pairs strikes `e`.
fn pair_strikes(pairs: &Vec<(u64, u64)>, e: u64) -> (r: bool)
    ensures
        r == struck_by(pairs@, e),
{
    let mut i: usize = 0;
    while i < pairs.len()
        invariant
            0 <= i <= pairs@.len(),
            forall|k: int| 0 <= k < i ==> (#[trigger] pairs@[k]).1 != e,
        decreases pairs@.len() - i,
    {
        if pairs[i].1 == e {
            return true;
        }
        i = i + 1;
    }
    false
}

/// The hit-resolution system. Matches this tick's started contacts between a
/// live hitbox and an enemy, in either ordering of the raw signal, and
/// despawns every struck enemy. Several enemies struck in one tick all die.
pub fn hit(world: &mut CombatWorld, collisions: &Vec<CollisionSignal>)
    ensures
        final(world)@ == hit_model(old(world)@, collisions@),
        old(world)@.wf() ==> final(world)@.wf(),
{
    let mut ids: Vec<u64> = Vec::new();
    let mut i: usize = 0;
    while i < world.hitboxes.len()
        invariant
            0 <= i <= world@.hitboxes.len(),
            ids@ == hitbox_ids(world@.hitboxes.take(i as int)),
        decreases world@.hitboxes.len() - i,
    {
        ids.push(world.hitboxes[i].id);
        proof {
            assert(hitbox_ids(world@.hitboxes.take(i + 1)) =~= hitbox_ids(
                world@.hitboxes.take(i as int),
            ).push(world@.hitboxes[i as int].id));
        }
        i = i + 1;
    }
    proof {
        assert(world@.hitboxes.take(world@.hitboxes.len() as int) =~= world@.hitboxes);
    }
    let pairs = find_matching_collisions(collisions, &ids, &world.enemies);
    let mut kept: Vec<u64> = Vec::new();
    let mut j: usize = 0;
    while j < world.enemies.len()
        invariant
            0 <= j <= world@.enemies.len(),
            pairs@ == matching_pairs(collisions@, hitbox_ids(world@.hitboxes), world@.enemies),
            kept@ == surviving_enemies(world@.enemies.take(j as int), pairs@),
        decreases world@.enemies.len() - j,
    {
        let e = world.enemies[j];
        if !pair_strikes(&pairs, e) {
            kept.push(e);
        }
        proof {
            assert(world@.enemies.take(j + 1).drop_last() =~= world@.enemies.take(j as int));
            assert(world@.enemies.take(j + 1).last() == world@.enemies[j as int]);
        }
        j = j + 1;
    }
    proof {
        assert(world@.enemies.take(world@.enemies.len() as int) =~= world@.enemies);
    }
    world.enemies = kept;
    proof {
        if old(world)@.wf() {
            lemma_surviving_enemies_elems(
                old(world)@.enemies,
                matching_pairs(collisions@, hitbox_ids(old(world)@.hitboxes), old(world)@.enemies),
            );
            lemma_surviving_enemies_distinct(
                old(world)@.enemies,
                matching_pairs(collisions@, hitbox_ids(old(world)@.hitboxes), old(world)@.enemies),
            );
            assert forall|i2: int|
                0 <= i2 < world@.enemies.len() implies #[trigger] world@.enemies[i2]
                < world@.next_id by {
                let k = choose|k: int|
                    0 <= k < old(world)@.enemies.len() && world@.enemies[i2] == old(
                        world,
                    )@.enemies[k];
            }
            assert forall|i2: int, j2: int|
                0 <= i2 < world@.hitboxes.len() && 0 <= j2 < world@.enemies.len() implies (
            #[trigger] world@.hitboxes[i2]).id != #[trigger] world@.enemies[j2] by {
                let k = choose|k: int|
                    0 <= k < old(world)@.enemies.len() && world@.enemies[j2] == old(
                        world,
                    )@.enemies[k];
            }
        }
    }
}

/// Every surviving enemy is one of the old enemies.
proof fn lemma_surviving_enemies_elems(enemies: Seq<u64>, pairs: Seq<(u64, u64)>)
    ensures
        forall|i: int|
            0 <= i < surviving_enemies(enemies, pairs).len() ==> exists|j: int|
                0 <= j < enemies.len() && #[trigger] surviving_enemies(enemies, pairs)[i]
                    == enemies[j],
    decreases enemies.len(),
{
    if enemies.len() > 0 {
        lemma_surviving_enemies_elems(enemies.drop_last(), pairs);
        let out = surviving_enemies(enemies, pairs);
        let rest = surviving_enemies(enemies.drop_last(), pairs);
        assert forall|i: int| 0 <= i < out.len() implies exists|j: int|
            0 <= j < enemies.len() && #[trigger] out[i] == enemies[j] by {
            if i < rest.len() {
                let j = choose|j: int|
                    0 <= j < enemies.drop_last().len() && rest[i] == enemies.drop_last()[j];
                assert(out[i] == enemies[j]);
            } else {
                assert(out[i] == enemies[enemies.len() - 1]);
            }
        }
    }
}

/// A hitbox whose advanced countdown has not finished survives the tick.
proof fn lemma_duration_model_keeps(hs: Seq<Hitbox>, delta: u64, j: int)
    requires
        0 <= j < hs.len(),
        !ticked_hitbox(hs[j], delta).attack.finished(),
    ensures
        duration_model(hs, delta).contains(ticked_hitbox(hs[j], delta)),
    decreases hs.len(),
{
    let out = duration_model(hs, delta);
    let rest = duration_model(hs.drop_last(), delta);
    if j == hs.len() - 1 {
        assert(out[out.len() - 1] == ticked_hitbox(hs[j], delta));
    } else {
        assert(hs.drop_last()[j] == hs[j]);
        lemma_duration_model_keeps(hs.drop_last(), delta, j);
        let m = choose|m: int| 0 <= m < rest.len() && rest[m] == ticked_hitbox(hs[j], delta);
        if !ticked_hitbox(hs.last(), delta).attack.finished() {
            assert(out[m] == ticked_hitbox(hs[j], delta));
        }
    }
}

/// Law: an attack hitbox despawns itself in the tick where its accumulated
/// elapsed time first reaches the attack duration, and not one tick before.
/// The boundary is deterministic: a total exactly equal to the duration
/// despawns.
pub proof fn lemma_attack_expires_exactly(hs: Seq<Hitbox>, delta: u64, j: int)
    requires
        0 <= j < hs.len(),
        forall|a: int, b: int| 0 <= a < b < hs.len() ==> hs[a].id != hs[b].id,
    ensures
        hs[j].attack.elapsed_micros + delta < ATTACK_DURATION_MICROS ==> duration_model(
            hs,
            delta,
        ).contains(ticked_hitbox(hs[j], delta)),
        hs[j].attack.elapsed_micros + delta >= ATTACK_DURATION_MICROS ==> forall|i: int|
            0 <= i < duration_model(hs, delta).len() ==> (#[trigger] duration_model(
                hs,
                delta,
            )[i]).id != hs[j].id,
{
    if hs[j].attack.elapsed_micros + delta < ATTACK_DURATION_MICROS {
        lemma_duration_model_keeps(hs, delta, j);
    } else {
        lemma_duration_model_elems(hs, delta);
        let out = duration_model(hs, delta);
        assert forall|i: int| 0 <= i < out.len() implies (#[trigger] out[i]).id != hs[j].id by {
            let k = choose|k: int| 0 <= k < hs.len() && out[i] == ticked_hitbox(hs[k], delta);
            if out[i].id == hs[j].id {
                assert(hs[k].id == hs[j].id);
                if k < j {
                    assert(hs[k].id != hs[j].id);
                } else if j < k {
                    assert(hs[j].id != hs[k].id);
                } else {
                    assert(out[i] == ticked_hitbox(hs[j], delta));
                    assert(out[i].attack.finished());
                }
            }
        }
    }
}

/// Attack spawning only appends: every already-live hitbox stays where it
/// was, and the enemies are untouched.
pub proof fn lemma_attack_model_extends(w: CombatWorldView, events: Seq<AttackEvent>, facings: Seq<FacingEntry>)
    requires
        w.next_id + events.len() <= u64::MAX,
    ensures
        attack_model(w, events, facings).hitboxes.len() >= w.hitboxes.len(),
        forall|i: int|
            0 <= i < w.hitboxes.len() ==> attack_model(w, events, facings).hitboxes[i]
                == w.hitboxes[i],
        attack_model(w, events, facings).enemies == w.enemies,
        attack_model(w, events, facings).next_id >= w.next_id,
    decreases events.len(),
{
    if events.len() > 0 {
        let w1 = attack_step(w, events[0], facings);
        lemma_attack_model_extends(w1, events.drop_first(), facings);
        assert(attack_model(w, events, facings) == attack_model(w1, events.drop_first(), facings));
        assert forall|i: int|
            0 <= i < w.hitboxes.len() implies attack_model(w, events, facings).hitboxes[i]
            == w.hitboxes[i] by {
            assert(w1.hitboxes[i] == w.hitboxes[i]);
            assert(attack_model(w1, events.drop_first(), facings).hitboxes[i] == w1.hitboxes[i]);
        }
    }
}

/// An attack intent whose attacker has a facing does spawn a hitbox this
/// tick: parented to the attacker, with a fresh countdown — so hit
/// resolution, which runs after spawning within the tick, can already see it.
pub proof fn lemma_attack_spawns_hitbox(w: CombatWorldView, events: Seq<AttackEvent>, facings: Seq<FacingEntry>, m: int)
    requires
        w.next_id + events.len() <= u64::MAX,
        0 <= m < events.len(),
        facing_for(facings, events[m].entity) is Some,
    ensures
        exists|i: int|
            0 <= i < attack_model(w, events, facings).hitboxes.len() && (#[trigger] attack_model(
                w,
                events,
                facings,
            ).hitboxes[i]).parent == events[m].entity && attack_model(
                w,
                events,
                facings,
            ).hitboxes[i].attack.elapsed_micros == 0,
    decreases events.len(),
{
    let w1 = attack_step(w, events[0], facings);
    assert(attack_model(w, events, facings) == attack_model(w1, events.drop_first(), facings));
    if m == 0 {
        let f = facing_for(facings, events[0].entity)->Some_0;
        let idx = w.hitboxes.len() as int;
        lemma_attack_model_extends(w1, events.drop_first(), facings);
        assert(w1.hitboxes[idx] == spawned_hitbox(events[0].entity, f, w.next_id));
        assert(attack_model(w1, events.drop_first(), facings).hitboxes[idx] == w1.hitboxes[idx]);
        assert(0 <= idx < attack_model(w, events, facings).hitboxes.len() && (attack_model(
            w,
            events,
            facings,
        ).hitboxes[idx]).parent == events[m].entity && attack_model(
            w,
            events,
            facings,
        ).hitboxes[idx].attack.elapsed_micros == 0);
    } else {
        assert(events.drop_first()[m - 1] == events[m]);
        lemma_attack_spawns_hitbox(w1, events.drop_first(), facings, m - 1);
        let i = choose|i: int|
            0 <= i < attack_model(w1, events.drop_first(), facings).hitboxes.len() && (
            #[trigger] attack_model(w1, events.drop_first(), facings).hitboxes[i]).parent
                == events.drop_first()[m - 1].entity && attack_model(
                w1,
                events.drop_first(),
                facings,
            ).hitboxes[i].attack.elapsed_micros == 0;
        assert(0 <= i < attack_model(w, events, facings).hitboxes.len() && (attack_model(
            w,
            events,
            facings,
        ).hitboxes[i]).parent == events[m].entity && attack_model(
            w,
            events,
            facings,
        ).hitboxes[i].attack.elapsed_micros == 0);
    }
}

/// A struck enemy does not survive hit resolution.
proof fn lemma_surviving_excludes(enemies: Seq<u64>, pairs: Seq<(u64, u64)>, e: u64)
    requires
        struck_by(pairs, e),
    ensures
        !surviving_enemies(enemies, pairs).contains(e),
    decreases enemies.len(),
{
    if enemies.len() > 0 {
        lemma_surviving_excludes(enemies.drop_last(), pairs, e);
        let out = surviving_enemies(enemies, pairs);
        let rest = surviving_enemies(enemies.drop_last(), pairs);
        if !struck_by(pairs, enemies.last()) {
            assert(enemies.last() != e);
            if out.contains(e) {
                let idx = choose|idx: int| 0 <= idx < out.len() && out[idx] == e;
                if idx < rest.len() {
                    assert(rest[idx] == e);
                    assert(rest.contains(e));
                }
            }
        }
    }
}

/// The store after one whole tick of the combat subsystem: attack intents
/// spawn hitboxes first, then hit resolution matches contacts — so a hitbox
/// spawned this tick can strike in this very tick — and countdown
/// advancement, which has no ordering dependency on either, runs last.
pub open spec fn combat_tick_model(w: CombatWorldView, events: Seq<AttackEvent>, facings: Seq<FacingEntry>, sigs: Seq<CollisionSignal>, delta: u64) -> CombatWorldView {
    let spawned = attack_model(w, events, facings);
    let resolved = hit_model(spawned, sigs);
    CombatWorldView {
        hitboxes: duration_model(resolved.hitboxes, delta),
        enemies: resolved.enemies,
        next_id: resolved.next_id,
    }
}

/// One whole simulation tick of the combat subsystem, in the required
/// order: attack spawning strictly before hit resolution, so a freshly
/// spawned hitbox can register a hit in its very first tick.
pub fn combat_tick(world: &mut CombatWorld, attack_events: &Vec<AttackEvent>, facings: &Vec<FacingEntry>, collisions: &Vec<CollisionSignal>, delta_micros: u64)
    requires
        old(world)@.wf(),
        old(world)@.next_id + attack_events@.len() <= u64::MAX,
        forall|i: int| 0 <= i < facings@.len() ==> (#[trigger] facings@[i]).facing.bounded(),
    ensures
        final(world)@ == combat_tick_model(
            old(world)@,
            attack_events@,
            facings@,
            collisions@,
            delta_micros,
        ),
        final(world)@.wf(),
{
    attack(world, attack_events, facings);
    hit(world, collisions);
    attack_duration(world, delta_micros);
    proof {
        assert(world@ =~= combat_tick_model(
            old(world)@,
            attack_events@,
            facings@,
            collisions@,
            delta_micros,
        ));
    }
}

/// Law: a hit between an attack hitbox — including one spawned this very
/// tick — and an enemy, detected in the same tick, despawns that enemy by
/// the end of the tick.
pub proof fn lemma_same_tick_hit_despawns_enemy(w: CombatWorldView, events: Seq<AttackEvent>, facings: Seq<FacingEntry>, sigs: Seq<CollisionSignal>, delta: u64, k: int, e: u64)
    requires
        0 <= k < sigs.len(),
        matched_pair(
            hitbox_ids(attack_model(w, events, facings).hitboxes),
            attack_model(w, events, facings).enemies,
            sigs[k],
        ) matches Some(pr) && pr.1 == e,
    ensures
        !combat_tick_model(w, events, facings, sigs, delta).enemies.contains(e),
{
    let spawned = attack_model(w, events, facings);
    let lefts = hitbox_ids(spawned.hitboxes);
    crate::collision::lemma_matching_pairs_contains(sigs, lefts, spawned.enemies, k);
    let pairs = matching_pairs(sigs, lefts, spawned.enemies);
    let p = matched_pair(lefts, spawned.enemies, sigs[k])->Some_0;
    let m = choose|m: int| 0 <= m < pairs.len() && pairs[m] == p;
    assert(struck_by(pairs, e));
    lemma_surviving_excludes(spawned.enemies, pairs, e);
}

/// Distinct enemies survive hit resolution distinct.
proof fn lemma_surviving_enemies_distinct(enemies: Seq<u64>, pairs: Seq<(u64, u64)>)
    requires
        forall|a: int, b: int| 0 <= a < b < enemies.len() ==> enemies[a] != enemies[b],
    ensures
        forall|a: int, b: int|
            0 <= a < b < surviving_enemies(enemies, pairs).len() ==> surviving_enemies(
                enemies,
                pairs,
            )[a] != surviving_enemies(enemies, pairs)[b],
    decreases enemies.len(),
{
    if enemies.len() > 0 {
        lemma_surviving_enemies_distinct(enemies.drop_last(), pairs);
        lemma_surviving_enemies_elems(enemies.drop_last(), pairs);
        let out = surviving_enemies(enemies, pairs);
        let rest = surviving_enemies(enemies.drop_last(), pairs);
        assert forall|a: int, b: int| 0 <= a < b < out.len() implies out[a] != out[b] by {
            if b == rest.len() {
                let j = choose|j: int|
                    0 <= j < enemies.drop_last().len() && rest[a] == enemies.drop_last()[j];
                assert(out[a] == enemies[j]);
                assert(out[b] == enemies[enemies.len() - 1]);
            }
        }
    }
}

} // verus!
