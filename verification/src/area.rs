//! Areas, passages, and the per-tick transition state machine.
//!
//! The world is a set of discrete areas. Each area owns an ambient
//! background color and a list of passages; touching a spawned passage
//! trigger sends the player to that passage's destination. Per tick, the
//! transition detector scans the collision feed and emits at most one
//! transition event; the transition executor consumes it, despawns every
//! stale passage trigger, relocates the player and loads the destination
//! area; the visibility updater re-gates every area-tagged entity.

use vstd::prelude::*;

use crate::collision::CollisionSignal;
use crate::math::Extent2;
use crate::math::Placement;
use crate::math::rects_overlap;
use crate::player::Player;

verus! {

/// Index of an area in the registry's ordered sequence of areas. Valid only
/// below the registry's length; dereferencing an out-of-range identifier is
/// an authoring fault, stated as a precondition rather than handled.
#[derive(Clone, Copy, Debug, PartialEq, Eq, PartialOrd, Ord, Structural)]
pub struct AreaIdentifier(pub usize);

impl From<usize> for AreaIdentifier {
    fn from(val: usize) -> (r: Self) {
        AreaIdentifier(val)
    }
}

impl vstd::std_specs::convert::FromSpecImpl<usize> for AreaIdentifier {
    open spec fn obeys_from_spec() -> bool {
        true
    }

    open spec fn from_spec(val: usize) -> Self {
        AreaIdentifier(val)
    }
}

/// An ambient RGB color, carried opaquely: the core only writes and compares
/// it. Channel scale is the embedding's choice.
#[derive(Clone, Copy, Debug, PartialEq, Eq, Structural)]
pub struct Color {
    pub red: u32,
    pub green: u32,
    pub blue: u32,
}

impl Color {
    /// Color with the given channels.
    pub fn rgb(red: u32, green: u32, blue: u32) -> (c: Color)
        ensures
            c == (Color { red, green, blue }),
    {
        Color { red, green, blue }
    }
}

/// Where touching a passage sends the player: the destination area and the
/// placement the player arrives at. A copy is attached to every spawned
/// passage trigger, so detection reads it off the collided entity directly.
#[derive(Clone, Copy, Debug, PartialEq, Eq, Structural)]
pub struct PassageDestination(pub AreaIdentifier, pub Placement);

/// Static description of one one-way crossing: where the trigger stands,
/// the rectangular footprint of its sensor volume, and its destination.
/// Immutable after construction; owned by exactly one area.
#[derive(Clone, Copy, Debug, PartialEq, Eq, Structural)]
pub struct Passage {
    pub transform: Placement,
    pub footprint: Extent2,
    pub destination: AreaIdentifier,
    pub destination_transform: Placement,
}

impl Passage {
    /// A passage standing at `transform` with the given sensor footprint,
    /// sending the player to `destination` at `destination_transform`.
    pub fn new(transform: Placement, footprint: Extent2, destination: AreaIdentifier, destination_transform: Placement) -> (p: Passage)
        ensures
            p == (Passage { transform, footprint, destination, destination_transform }),
    {
        Passage { transform, footprint, destination, destination_transform }
    }

    /// Everything one spawned passage-trigger entity carries: the placement,
    /// the sensor footprint, and the destination marker, under a fresh
    /// entity identifier.
    pub fn bundle(&self, id: u64) -> (b: PassageBundle)
        ensures
            b == spawned_bundle(*self, id),
    {
        PassageBundle {
            id,
            transform: self.transform,
            footprint: self.footprint,
            destination: PassageDestination(self.destination, self.destination_transform),
        }
    }
}

/// One live passage-trigger entity in the store: its entity identifier, its
/// placement, its sensor footprint and the destination marker it carries.
#[derive(Clone, Copy, Debug, PartialEq, Eq, Structural)]
pub struct PassageBundle {
    pub id: u64,
    pub transform: Placement,
    pub footprint: Extent2,
    pub destination: PassageDestination,
}

/// The bundle that spawning `p` under entity identifier `id` produces.
pub open spec fn spawned_bundle(p: Passage, id: u64) -> PassageBundle {
    PassageBundle {
        id,
        transform: p.transform,
        footprint: p.footprint,
        destination: PassageDestination(p.destination, p.destination_transform),
    }
}

/// Whether a live trigger carries exactly what spawning `p` gives, whatever
/// its entity identifier.
pub open spec fn bundle_matches(b: PassageBundle, p: Passage) -> bool {
    &&& b.transform == p.transform
    &&& b.footprint == p.footprint
    &&& b.destination == PassageDestination(p.destination, p.destination_transform)
}

/// One area: an ambient background color plus the passages it owns.
/// Immutable after construction.
#[derive(Clone, Debug)]
pub struct Area {
    pub color: Color,
    pub passages: Vec<Passage>,
}

/// Spec-level value of an `Area`.
#[verifier::ext_equal]
pub ghost struct AreaView {
    pub color: Color,
    pub passages: Seq<Passage>,
}

impl View for Area {
    type V = AreaView;

    open spec fn view(&self) -> AreaView {
        AreaView { color: self.color, passages: self.passages@ }
    }
}

impl Area {
    /// An area with the given background color and passages.
    pub fn new(color: Color, passages: Vec<Passage>) -> (a: Area)
        ensures
            a@ == (AreaView { color, passages: passages@ }),
    {
        Area { color, passages }
    }
}

/// The area registry: the flat ordered sequence of all areas, indexed by
/// `AreaIdentifier`. Constructed once before the simulation starts and only
/// read afterwards.
#[derive(Clone, Debug)]
pub struct GameAreas {
    pub areas: Vec<Area>,
}

impl View for GameAreas {
    type V = Seq<AreaView>;

    open spec fn view(&self) -> Seq<AreaView> {
        self.areas@.map_values(|a: Area| a@)
    }
}

impl GameAreas {
    /// The registry over the given ordered areas.
    pub fn new(areas: Vec<Area>) -> (g: GameAreas)
        ensures
            g@ == areas@.map_values(|a: Area| a@),
    {
        GameAreas { areas }
    }

    /// How many areas the registry holds.
    pub fn area_count(&self) -> (n: usize)
        ensures
            n == self@.len(),
    {
        self.areas.len()
    }
}

/// The single in-flight transition signal of one tick, wrapping the touched
/// passage's destination. Emitted at most once per tick and never replayed
/// across ticks.
#[derive(Clone, Copy, Debug, PartialEq, Eq, Structural)]
pub struct AreaTransitionEvent(pub PassageDestination);

/// An entity whose visibility is gated by which area is entered: decor or an
/// enemy, tagged with the area it belongs to.
#[derive(Clone, Copy, Debug, PartialEq, Eq, Structural)]
pub struct TaggedEntity {
    pub id: u64,
    pub area: AreaIdentifier,
    pub visible: bool,
}

/// The slice of the entity store that the transition subsystem reads and
/// writes: the background color, the live passage triggers, the player, the
/// area-tagged entities, and the next fresh entity identifier.
#[derive(Clone, Debug)]
pub struct AreaWorld {
    pub background: Color,
    pub passages: Vec<PassageBundle>,
    pub player: Option<Player>,
    pub tagged: Vec<TaggedEntity>,
    pub next_id: u64,
}

/// Spec-level value of an `AreaWorld`.
#[verifier::ext_equal]
pub ghost struct AreaWorldView {
    pub background: Color,
    pub passages: Seq<PassageBundle>,
    pub player: Option<Player>,
    pub tagged: Seq<TaggedEntity>,
    pub next_id: u64,
}

impl View for AreaWorld {
    type V = AreaWorldView;

    open spec fn view(&self) -> AreaWorldView {
        AreaWorldView {
            background: self.background,
            passages: self.passages@,
            player: self.player,
            tagged: self.tagged@,
            next_id: self.next_id,
        }
    }
}

impl AreaWorldView {
    /// Entity identifiers are a consistent arena: every identifier in the
    /// store is below `next_id` and no two live entities share one.
    pub open spec fn wf(self) -> bool {
        &&& forall|i: int, j: int|
            0 <= i < j < self.passages.len() ==> self.passages[i].id != self.passages[j].id
        &&& forall|i: int| 0 <= i < self.passages.len() ==> #[trigger] self.passages[i].id < self.next_id
        &&& forall|i: int, j: int|
            0 <= i < j < self.tagged.len() ==> self.tagged[i].id != self.tagged[j].id
        &&& forall|i: int| 0 <= i < self.tagged.len() ==> #[trigger] self.tagged[i].id < self.next_id
        &&& forall|i: int, j: int|
            0 <= i < self.passages.len() && 0 <= j < self.tagged.len()
                ==> self.passages[i].id != self.tagged[j].id
        &&& match self.player {
            Some(p) => {
                &&& p.id < self.next_id
                &&& forall|i: int| 0 <= i < self.passages.len() ==> #[trigger] self.passages[i].id != p.id
                &&& forall|i: int| 0 <= i < self.tagged.len() ==> #[trigger] self.tagged[i].id != p.id
            },
            None => true,
        }
    }
}

/// The triggers that loading area `a` spawns when the store's next fresh
/// identifier is `base`: one bundle per passage, in passage order, under
/// consecutive fresh identifiers.
pub open spec fn spawn_all(ps: Seq<Passage>, base: u64) -> Seq<PassageBundle> {
    Seq::new(ps.len(), |i: int| spawned_bundle(ps[i], (base + i) as u64))
}

/// What loading an area does to the store: the background becomes the
/// area's color and one trigger per passage of the area is spawned. Loading
/// never removes anything: despawning stale triggers is the caller's duty.
pub open spec fn load_model(w: AreaWorldView, a: AreaView) -> AreaWorldView {
    AreaWorldView {
        background: a.color,
        passages: w.passages + spawn_all(a.passages, w.next_id),
        player: w.player,
        tagged: w.tagged,
        next_id: (w.next_id + a.passages.len()) as u64,
    }
}

impl Area {
    /// Sets the ambient background color to this area's color and spawns one
    /// sensor trigger entity per passage of this area, under fresh entity
    /// identifiers. Previously spawned triggers are left alone: the caller
    /// despawns stale ones first.
    pub fn load(&self, world: &mut AreaWorld)
        requires
            old(world)@.wf(),
            old(world)@.next_id + self@.passages.len() <= u64::MAX,
        ensures
            final(world)@ == load_model(old(world)@, self@),
            final(world)@.wf(),
    {
        let ghost w0 = world@;
        world.background = self.color;
        let mut i: usize = 0;
        while i < self.passages.len()
            invariant
                0 <= i <= self@.passages.len(),
                w0.next_id + self@.passages.len() <= u64::MAX,
                world@.background == self@.color,
                world@.player == w0.player,
                world@.tagged == w0.tagged,
                world@.next_id == w0.next_id + i,
                world@.passages == w0.passages + spawn_all(self@.passages.take(i as int), w0.next_id),
            decreases self@.passages.len() - i,
        {
            let id = world.next_id;
            let bundle = self.passages[i].bundle(id);
            world.passages.push(bundle);
            world.next_id = id + 1;
            proof {
                assert(spawn_all(self@.passages.take(i + 1), w0.next_id) =~= spawn_all(
                    self@.passages.take(i as int),
                    w0.next_id,
                ).push(spawned_bundle(self@.passages[i as int], (w0.next_id + i) as u64)));
                assert(world@.passages =~= w0.passages + spawn_all(
                    self@.passages.take(i + 1),
                    w0.next_id,
                ));
            }
            i = i + 1;
        }
        proof {
            assert(self@.passages.take(self@.passages.len() as int) =~= self@.passages);
            assert(world@ =~= load_model(w0, self@));
            assert forall|a: int, b: int|
                0 <= a < b < world@.passages.len() implies world@.passages[a].id
                != world@.passages[b].id by {
                if b >= w0.passages.len() {
                    assert(world@.passages[b].id == w0.next_id + (b - w0.passages.len()));
                    if a >= w0.passages.len() {
                        assert(world@.passages[a].id == w0.next_id + (a - w0.passages.len()));
                    } else {
                        assert(w0.passages[a].id < w0.next_id);
                    }
                }
            }
            assert(world@.wf());
        }
    }
}

/// The destination marker of the first live trigger carrying the entity
/// identifier `id`, if any does.
pub open spec fn passage_for(passages: Seq<PassageBundle>, id: u64) -> Option<PassageDestination>
    decreases passages.len(),
{
    if passages.len() == 0 {
        None
    } else if passages[0].id == id {
        Some(passages[0].destination)
    } else {
        passage_for(passages.drop_first(), id)
    }
}

/// Whether one collision signal is a transition candidate, and where it
/// leads: a started contact with the player on one side and a live passage
/// trigger on the other, in either ordering. Without a player nothing is a
/// candidate.
pub open spec fn candidate(w: AreaWorldView, sig: CollisionSignal) -> Option<PassageDestination> {
    match w.player {
        Some(p) => match sig {
            CollisionSignal::Started(l, r) => {
                let dest_r = passage_for(w.passages, r);
                let dest_l = passage_for(w.passages, l);
                if l == p.id && dest_r is Some {
                    dest_r
                } else if r == p.id && dest_l is Some {
                    dest_l
                } else {
                    None
                }
            },
            CollisionSignal::Ended(_, _) => None,
        },
        None => None,
    }
}

/// The destination of the first transition candidate in signal order, if
/// any signal is one.
pub open spec fn first_candidate(sigs: Seq<CollisionSignal>, w: AreaWorldView) -> Option<PassageDestination>
    decreases sigs.len(),
{
    if sigs.len() == 0 {
        None
    } else {
        match candidate(w, sigs[0]) {
            Some(d) => Some(d),
            None => first_candidate(sigs.drop_first(), w),
        }
    }
}

/// What the transition detector emits for one tick's signals: an event
/// wrapping the first candidate's destination, or nothing.
pub open spec fn detector_model(sigs: Seq<CollisionSignal>, w: AreaWorldView) -> Option<AreaTransitionEvent> {
    match first_candidate(sigs, w) {
        Some(d) => Some(AreaTransitionEvent(d)),
        None => None,
    }
}

/// Without a player, no signal is a candidate.
proof fn lemma_no_player_no_candidate(sigs: Seq<CollisionSignal>, w: AreaWorldView)
    requires
        w.player is None,
    ensures
        first_candidate(sigs, w) is None,
    decreases sigs.len(),
{
    if sigs.len() > 0 {
        lemma_no_player_no_candidate(sigs.drop_first(), w);
    }
}

/// The destination marker of the first live trigger with identifier `id`.
fn passage_destination_of(passages: &Vec<PassageBundle>, id: u64) -> (r: Option<PassageDestination>)
    ensures
        r == passage_for(passages@, id),
{
    let mut i: usize = 0;
    proof {
        assert(passages@.skip(0) =~= passages@);
    }
    while i < passages.len()
        invariant
            0 <= i <= passages@.len(),
            passage_for(passages@, id) == passage_for(passages@.skip(i as int), id),
        decreases passages@.len() - i,
    {
        proof {
            assert(passages@.skip(i as int)[0] == passages@[i as int]);
            assert(passages@.skip(i as int).drop_first() =~= passages@.skip(i + 1));
        }
        if passages[i].id == id {
            return Some(passages[i].destination);
        }
        i = i + 1;
    }
    None
}

/// The transition detector. Runs once per tick after the collision source
/// has published its signals: scans them in order for a started contact
/// between the player and a live passage trigger and emits one event for the
/// first such contact, dropping every further candidate of the tick. Ended
/// contacts are ignored, and a tick without a player emits nothing.
pub fn area_transition_check(collisions: &Vec<CollisionSignal>, world: &AreaWorld) -> (ev: Option<AreaTransitionEvent>)
    ensures
        ev == detector_model(collisions@, world@),
{
    let player_id: u64 = match &world.player {
        Some(p) => p.id,
        None => {
            proof {
                lemma_no_player_no_candidate(collisions@, world@);
            }
            return None;
        },
    };
    let mut i: usize = 0;
    proof {
        assert(collisions@.skip(0) =~= collisions@);
    }
    while i < collisions.len()
        invariant
            0 <= i <= collisions@.len(),
            world@.player matches Some(p) && p.id == player_id,
            first_candidate(collisions@, world@) == first_candidate(
                collisions@.skip(i as int),
                world@,
            ),
        decreases collisions@.len() - i,
    {
        proof {
            assert(collisions@.skip(i as int)[0] == collisions@[i as int]);
            assert(collisions@.skip(i as int).drop_first() =~= collisions@.skip(i + 1));
        }
        match collisions[i] {
            CollisionSignal::Started(l, r) => {
                if l == player_id {
                    if let Some(d) = passage_destination_of(&world.passages, r) {
                        return Some(AreaTransitionEvent(d));
                    }
                }
                if r == player_id {
                    if let Some(d) = passage_destination_of(&world.passages, l) {
                        return Some(AreaTransitionEvent(d));
                    }
                }
            },
            CollisionSignal::Ended(_, _) => {},
        }
        i = i + 1;
    }
    None
}

/// Loads the designated starting area before the first tick. The registry
/// must hold at least one area.
pub fn area_startup_system(world: &mut AreaWorld, game_areas: &GameAreas)
    requires
        old(world)@.wf(),
        game_areas@.len() > 0,
        old(world)@.next_id + game_areas@[0].passages.len() <= u64::MAX,
    ensures
        final(world)@ == load_model(old(world)@, game_areas@[0]),
        final(world)@.wf(),
{
    let first = &game_areas.areas[0];
    first.load(world);
}

/// The player after a transition whose arrival placement is `dest`: same
/// entity, same footprint, placed at the arrival coordinates. Orientation
/// and scale are not modelled and stay untouched in the engine's store.
pub open spec fn moved_player(player: Option<Player>, dest: Placement) -> Option<Player> {
    match player {
        Some(p) => Some(Player { id: p.id, position: dest, footprint: p.footprint }),
        None => None,
    }
}

/// What executing one transition event does to the store: every live
/// passage trigger is despawned, whichever area it belonged to; the player,
/// if one exists, is placed at the event's arrival placement; and the
/// destination area is loaded. Old and new triggers never coexist.
pub open spec fn executor_model(w: AreaWorldView, ev: AreaTransitionEvent, areas: Seq<AreaView>) -> AreaWorldView {
    let dest = ev.0;
    let cleared = AreaWorldView {
        background: w.background,
        passages: Seq::empty(),
        player: moved_player(w.player, dest.1),
        tagged: w.tagged,
        next_id: w.next_id,
    };
    load_model(cleared, areas[dest.0.0 as int])
}

/// The transition executor. Consumes one transition event: despawns every
/// currently spawned passage trigger, overwrites the player's position with
/// the event's arrival placement (a missing player is tolerated), and loads
/// the destination area. A destination outside the registry is an authoring
/// fault, excluded by precondition.
pub fn area_transition(world: &mut AreaWorld, event: &AreaTransitionEvent, game_areas: &GameAreas)
    requires
        old(world)@.wf(),
        (event.0).0.0 < game_areas@.len(),
        old(world)@.next_id + game_areas@[(event.0).0.0 as int].passages.len() <= u64::MAX,
    ensures
        final(world)@ == executor_model(old(world)@, *event, game_areas@),
        final(world)@.wf(),
{
    let destination: PassageDestination = event.0;
    let dest_area: usize = destination.0.0;
    world.passages = Vec::new();
    let moved = match &world.player {
        Some(p) => Some(Player { id: p.id, position: destination.1, footprint: p.footprint }),
        None => None,
    };
    world.player = moved;
    let ghost cleared = world@;
    proof {
        assert(cleared.wf());
    }
    let area = &game_areas.areas[dest_area];
    area.load(world);
    proof {
        assert(world@ =~= executor_model(old(world)@, *event, game_areas@));
    }
}

/// The tagged entities after a transition to `dest`: each is shown exactly
/// when its tag equals the entered area, whatever it showed before.
pub open spec fn drawing_model(tagged: Seq<TaggedEntity>, dest: AreaIdentifier) -> Seq<TaggedEntity> {
    Seq::new(
        tagged.len(),
        |i: int| TaggedEntity { id: tagged[i].id, area: tagged[i].area, visible: tagged[i].area == dest },
    )
}

/// The visibility updater. Consumes the same tick's transition event
/// independently of the executor and re-gates every area-tagged entity:
/// shown exactly when its tag equals the entered area. Total and idempotent:
/// every tagged entity is re-evaluated, none is diffed incrementally.
pub fn area_transition_drawing(world: &mut AreaWorld, event: &AreaTransitionEvent)
    ensures
        final(world)@.tagged == drawing_model(old(world)@.tagged, (event.0).0),
        forall|i: int|
            0 <= i < final(world)@.tagged.len()
                ==> (#[trigger] final(world)@.tagged[i].visible <==> final(world)@.tagged[i].area
                == (event.0).0),
        final(world)@.background == old(world)@.background,
        final(world)@.passages == old(world)@.passages,
        final(world)@.player == old(world)@.player,
        final(world)@.next_id == old(world)@.next_id,
        old(world)@.wf() ==> final(world)@.wf(),
{
    let entered: AreaIdentifier = (event.0).0;
    let mut updated: Vec<TaggedEntity> = Vec::new();
    let mut i: usize = 0;
    while i < world.tagged.len()
        invariant
            0 <= i <= world@.tagged.len(),
            updated@ =~= drawing_model(world@.tagged.take(i as int), entered),
        decreases world@.tagged.len() - i,
    {
        let t = world.tagged[i];
        updated.push(TaggedEntity { id: t.id, area: t.area, visible: t.area == entered });
        i = i + 1;
    }
    proof {
        assert(world@.tagged.take(world@.tagged.len() as int) =~= world@.tagged);
    }
    world.tagged = updated;
}

/// Law: the visibility updater is idempotent and total — re-running it for
/// the same entered area changes nothing, since every tagged entity is
/// re-evaluated from its tag alone rather than diffed incrementally.
pub proof fn lemma_drawing_idempotent(tagged: Seq<TaggedEntity>, dest: AreaIdentifier)
    ensures
        drawing_model(drawing_model(tagged, dest), dest) == drawing_model(tagged, dest),
{
    assert(drawing_model(drawing_model(tagged, dest), dest) =~= drawing_model(tagged, dest));
}

/// The signals the modelled collision source publishes on one tick for a
/// player `p`: one started contact per live passage trigger whose footprint
/// overlaps the player's, in trigger order, each naming the player first.
pub open spec fn signals_for(p: Player, passages: Seq<PassageBundle>) -> Seq<CollisionSignal>
    decreases passages.len(),
{
    if passages.len() == 0 {
        Seq::empty()
    } else {
        let first = passages[0];
        let rest = signals_for(p, passages.drop_first());
        if rects_overlap(p.position, p.footprint, first.transform, first.footprint) {
            seq![CollisionSignal::Started(p.id, first.id)] + rest
        } else {
            rest
        }
    }
}

/// What the modelled collision source publishes for the whole store: without
/// a player there is no contact to report.
pub open spec fn source_model(w: AreaWorldView) -> Seq<CollisionSignal> {
    match w.player {
        Some(p) => signals_for(p, w.passages),
        None => Seq::empty(),
    }
}

/// All coordinates of the store small enough for executable overlap
/// arithmetic.
pub open spec fn geometry_bounded(w: AreaWorldView) -> bool {
    &&& (w.player matches Some(p) ==> p.position.bounded() && p.footprint.valid_footprint())
    &&& forall|i: int|
        0 <= i < w.passages.len()
            ==> (#[trigger] w.passages[i]).transform.bounded() && w.passages[i].footprint.valid_footprint()
}

/// The modelled collision source: publishes one started contact per live
/// passage trigger the player's footprint currently overlaps. It stands for
/// the engine's sensor-volume detection over the modelled rectangles.
pub fn collision_source(world: &AreaWorld) -> (sigs: Vec<CollisionSignal>)
    requires
        geometry_bounded(world@),
    ensures
        sigs@ == source_model(world@),
{
    let mut sigs: Vec<CollisionSignal> = Vec::new();
    let player: Player = match &world.player {
        Some(p) => *p,
        None => {
            return sigs;
        },
    };
    let mut i: usize = 0;
    proof {
        assert(world@.passages.skip(0) =~= world@.passages);
        assert(sigs@ + signals_for(player, world@.passages) =~= signals_for(
            player,
            world@.passages,
        ));
    }
    while i < world.passages.len()
        invariant
            0 <= i <= world@.passages.len(),
            geometry_bounded(world@),
            world@.player == Some(player),
            signals_for(player, world@.passages) == sigs@ + signals_for(
                player,
                world@.passages.skip(i as int),
            ),
        decreases world@.passages.len() - i,
    {
        proof {
            assert(world@.passages.skip(i as int)[0] == world@.passages[i as int]);
            assert(world@.passages.skip(i as int).drop_first() =~= world@.passages.skip(i + 1));
        }
        let trigger = world.passages[i];
        if crate::math::footprints_overlap(
            &player.position,
            &player.footprint,
            &trigger.transform,
            &trigger.footprint,
        ) {
            sigs.push(CollisionSignal::Started(player.id, trigger.id));
            proof {
                assert(sigs@ + signals_for(player, world@.passages.skip(i + 1))
                    =~= sigs@.drop_last() + (seq![
                    CollisionSignal::Started(player.id, trigger.id),
                ] + signals_for(player, world@.passages.skip(i + 1))));
            }
        }
        i = i + 1;
    }
    proof {
        assert(signals_for(player, world@.passages.skip(world@.passages.len() as int))
            =~= Seq::<CollisionSignal>::empty());
        assert(sigs@ + Seq::<CollisionSignal>::empty() =~= sigs@);
    }
    sigs
}

/// Under distinct trigger identifiers, looking a live trigger's own
/// identifier up finds exactly its destination.
proof fn lemma_passage_found(passages: Seq<PassageBundle>, j: int)
    requires
        forall|a: int, b: int| 0 <= a < b < passages.len() ==> passages[a].id != passages[b].id,
        0 <= j < passages.len(),
    ensures
        passage_for(passages, passages[j].id) == Some(passages[j].destination),
    decreases passages.len(),
{
    if j > 0 {
        lemma_passage_found(passages.drop_first(), j - 1);
    }
}

/// A successful lookup hands back the destination of some live trigger.
proof fn lemma_passage_for_is_spawned(passages: Seq<PassageBundle>, id: u64)
    requires
        passage_for(passages, id) is Some,
    ensures
        exists|i: int|
            0 <= i < passages.len() && (#[trigger] passages[i]).destination == passage_for(
                passages,
                id,
            )->Some_0,
    decreases passages.len(),
{
    if passages.len() > 0 && passages[0].id != id {
        lemma_passage_for_is_spawned(passages.drop_first(), id);
        let k = choose|k: int|
            0 <= k < passages.drop_first().len() && (#[trigger] passages.drop_first()[k]).destination
                == passage_for(passages.drop_first(), id)->Some_0;
        assert(passages[k + 1].destination == passage_for(passages, id)->Some_0);
    }
}

/// The first candidate's destination is the destination of some live trigger.
proof fn lemma_candidate_from_passages(sigs: Seq<CollisionSignal>, w: AreaWorldView)
    requires
        first_candidate(sigs, w) is Some,
    ensures
        exists|i: int|
            0 <= i < w.passages.len() && (#[trigger] w.passages[i]).destination == first_candidate(
                sigs,
                w,
            )->Some_0,
    decreases sigs.len(),
{
    if sigs.len() > 0 {
        if candidate(w, sigs[0]) is Some {
            match sigs[0] {
                CollisionSignal::Started(l, r) => {
                    let p = w.player->Some_0;
                    if l == p.id && passage_for(w.passages, r) is Some {
                        lemma_passage_for_is_spawned(w.passages, r);
                    } else {
                        lemma_passage_for_is_spawned(w.passages, l);
                    }
                },
                CollisionSignal::Ended(_, _) => {},
            }
        } else {
            lemma_candidate_from_passages(sigs.drop_first(), w);
        }
    }
}

/// The position of the first trigger the player's footprint overlaps.
pub open spec fn first_overlap_index(p: Player, passages: Seq<PassageBundle>) -> Option<int>
    decreases passages.len(),
{
    if passages.len() == 0 {
        None
    } else if rects_overlap(p.position, p.footprint, passages[0].transform, passages[0].footprint) {
        Some(0int)
    } else {
        match first_overlap_index(p, passages.drop_first()) {
            Some(k) => Some(k + 1),
            None => None,
        }
    }
}

/// `first_overlap_index` finds an overlapped trigger exactly when one exists.
proof fn lemma_first_overlap_index_props(p: Player, passages: Seq<PassageBundle>)
    ensures
        first_overlap_index(p, passages) matches Some(k) ==> 0 <= k < passages.len()
            && rects_overlap(p.position, p.footprint, passages[k].transform, passages[k].footprint),
        first_overlap_index(p, passages) is None ==> forall|k: int|
            0 <= k < passages.len() ==> !rects_overlap(
                p.position,
                p.footprint,
                (#[trigger] passages[k]).transform,
                passages[k].footprint,
            ),
    decreases passages.len(),
{
    if passages.len() > 0 {
        lemma_first_overlap_index_props(p, passages.drop_first());
        if !rects_overlap(p.position, p.footprint, passages[0].transform, passages[0].footprint) {
            match first_overlap_index(p, passages.drop_first()) {
                Some(k) => {
                    assert(passages.drop_first()[k] == passages[k + 1]);
                },
                None => {
                    assert forall|k: int| 0 <= k < passages.len() implies !rects_overlap(
                        p.position,
                        p.footprint,
                        (#[trigger] passages[k]).transform,
                        passages[k].footprint,
                    ) by {
                        if k > 0 {
                            assert(passages.drop_first()[k - 1] == passages[k]);
                        }
                    }
                },
            }
        }
    }
}

/// Feeding the modelled collision source's signals of one tick to the
/// detector picks the first overlapped trigger among `sub`, as long as every
/// trigger of `sub` is live in the store.
proof fn lemma_detector_over_signals(w: AreaWorldView, p: Player, sub: Seq<PassageBundle>)
    requires
        w.wf(),
        w.player == Some(p),
        forall|i: int| 0 <= i < sub.len() ==> w.passages.contains(#[trigger] sub[i]),
    ensures
        first_candidate(signals_for(p, sub), w) == match first_overlap_index(p, sub) {
            Some(j) => Some(sub[j].destination),
            None => None,
        },
    decreases sub.len(),
{
    if sub.len() > 0 {
        let first = sub[0];
        assert(w.passages.contains(first));
        if rects_overlap(p.position, p.footprint, first.transform, first.footprint) {
            let m = choose|m: int| 0 <= m < w.passages.len() && w.passages[m] == first;
            lemma_passage_found(w.passages, m);
            let sigs = signals_for(p, sub);
            assert(sigs[0] == CollisionSignal::Started(p.id, first.id));
            assert(candidate(w, sigs[0]) == Some(first.destination));
        } else {
            assert(forall|i: int|
                0 <= i < sub.drop_first().len() ==> w.passages.contains(
                    #[trigger] sub.drop_first()[i],
                ));
            lemma_detector_over_signals(w, p, sub.drop_first());
            lemma_first_overlap_index_props(p, sub.drop_first());
            match first_overlap_index(p, sub.drop_first()) {
                Some(k) => {
                    assert(sub.drop_first()[k] == sub[k + 1]);
                },
                None => {},
            }
        }
    }
}

/// Law: on a tick where the player's footprint overlaps exactly one live
/// passage trigger, exactly one transition event is emitted, and it carries
/// that trigger's destination unchanged.
pub proof fn lemma_single_overlap_emits_its_destination(w: AreaWorldView, p: Player, j: int)
    requires
        w.wf(),
        w.player == Some(p),
        0 <= j < w.passages.len(),
        rects_overlap(p.position, p.footprint, w.passages[j].transform, w.passages[j].footprint),
        forall|k: int|
            0 <= k < w.passages.len() && k != j ==> !rects_overlap(
                p.position,
                p.footprint,
                (#[trigger] w.passages[k]).transform,
                w.passages[k].footprint,
            ),
    ensures
        detector_model(source_model(w), w) == Some(AreaTransitionEvent(w.passages[j].destination)),
{
    lemma_first_overlap_index_single(p, w.passages, j);
    lemma_detector_over_signals(w, p, w.passages);
}

/// With exactly one overlapped trigger, `first_overlap_index` finds it.
proof fn lemma_first_overlap_index_single(p: Player, passages: Seq<PassageBundle>, j: int)
    requires
        0 <= j < passages.len(),
        rects_overlap(p.position, p.footprint, passages[j].transform, passages[j].footprint),
        forall|k: int|
            0 <= k < passages.len() && k != j ==> !rects_overlap(
                p.position,
                p.footprint,
                (#[trigger] passages[k]).transform,
                passages[k].footprint,
            ),
    ensures
        first_overlap_index(p, passages) == Some(j),
    decreases passages.len(),
{
    if j > 0 {
        lemma_first_overlap_index_single(p, passages.drop_first(), j - 1);
    }
}

/// Law: on a tick with two or more simultaneous passage overlaps, exactly
/// one transition event is emitted — never zero, never more than the one the
/// detector's return value can carry — and its destination is one of the
/// overlapped triggers' destinations.
pub proof fn lemma_simultaneous_overlaps_emit_one(w: AreaWorldView, p: Player)
    requires
        w.wf(),
        w.player == Some(p),
        exists|j: int|
            0 <= j < w.passages.len() && rects_overlap(
                p.position,
                p.footprint,
                (#[trigger] w.passages[j]).transform,
                w.passages[j].footprint,
            ),
    ensures
        detector_model(source_model(w), w) is Some,
        exists|j: int|
            0 <= j < w.passages.len() && rects_overlap(
                p.position,
                p.footprint,
                (#[trigger] w.passages[j]).transform,
                w.passages[j].footprint,
            ) && detector_model(source_model(w), w) == Some(
                AreaTransitionEvent(w.passages[j].destination),
            ),
{
    lemma_first_overlap_index_props(p, w.passages);
    lemma_detector_over_signals(w, p, w.passages);
    let k = first_overlap_index(p, w.passages)->Some_0;
    assert(0 <= k < w.passages.len() && rects_overlap(
        p.position,
        p.footprint,
        w.passages[k].transform,
        w.passages[k].footprint,
    ) && detector_model(source_model(w), w) == Some(
        AreaTransitionEvent(w.passages[k].destination),
    ));
}

/// Whether the live triggers `bs` are exactly what spawning area `a`'s
/// passage list gives, in order, whatever their entity identifiers.
pub open spec fn passages_spawned_from(bs: Seq<PassageBundle>, a: AreaView) -> bool {
    &&& bs.len() == a.passages.len()
    &&& forall|i: int| 0 <= i < bs.len() ==> bundle_matches(#[trigger] bs[i], a.passages[i])
}

/// Whether a live trigger carries what some passage of area `a`'s list gives.
pub open spec fn trigger_belongs_to(b: PassageBundle, a: AreaView) -> bool {
    exists|k: int| 0 <= k < a.passages.len() && bundle_matches(b, #[trigger] a.passages[k])
}

/// Law: after a transition to destination area `d` executes, every live
/// passage trigger belongs to area `d`'s passage list — no stale trigger of
/// a previous area remains — and the background color equals `d`'s color.
pub proof fn lemma_transition_loads_destination_area(w: AreaWorldView, ev: AreaTransitionEvent, areas: Seq<AreaView>)
    requires
        (ev.0).0.0 < areas.len(),
    ensures
        executor_model(w, ev, areas).background == areas[(ev.0).0.0 as int].color,
        passages_spawned_from(executor_model(w, ev, areas).passages, areas[(ev.0).0.0 as int]),
        forall|i: int|
            0 <= i < executor_model(w, ev, areas).passages.len() ==> trigger_belongs_to(
                #[trigger] executor_model(w, ev, areas).passages[i],
                areas[(ev.0).0.0 as int],
            ),
{
    let a = areas[(ev.0).0.0 as int];
    assert(executor_model(w, ev, areas).passages =~= spawn_all(a.passages, w.next_id));
    assert forall|i: int| 0 <= i < executor_model(w, ev, areas).passages.len() implies trigger_belongs_to(
        #[trigger] executor_model(w, ev, areas).passages[i],
        areas[(ev.0).0.0 as int],
    ) by {
        assert(0 <= i < a.passages.len() && bundle_matches(
            executor_model(w, ev, areas).passages[i],
            a.passages[i],
        ));
    }
}

/// Law: transitioning away from an area and back again restores that area's
/// registered passage set and its background color, and places the player at
/// the returning passage's arrival placement (ping-pong round trip).
pub proof fn lemma_round_trip_restores_area(w: AreaWorldView, areas: Seq<AreaView>, ev_out: AreaTransitionEvent, ev_back: AreaTransitionEvent)
    requires
        (ev_out.0).0.0 < areas.len(),
        (ev_back.0).0.0 < areas.len(),
    ensures
        passages_spawned_from(
            executor_model(executor_model(w, ev_out, areas), ev_back, areas).passages,
            areas[(ev_back.0).0.0 as int],
        ),
        executor_model(executor_model(w, ev_out, areas), ev_back, areas).background == areas[(
        ev_back.0).0.0 as int].color,
        w.player is Some ==> executor_model(executor_model(w, ev_out, areas), ev_back, areas).player
            == moved_player(w.player, (ev_back.0).1),
{
    lemma_transition_loads_destination_area(w, ev_out, areas);
    lemma_transition_loads_destination_area(executor_model(w, ev_out, areas), ev_back, areas);
}

/// Every live trigger's destination area stays inside the registry: the
/// authoring precondition under which any event the detector emits this tick
/// can be executed.
pub open spec fn destinations_in_bounds(passages: Seq<PassageBundle>, areas: Seq<AreaView>) -> bool {
    forall|i: int| 0 <= i < passages.len() ==> ((#[trigger] passages[i]).destination.0).0 < areas.len()
}

/// Fresh identifiers cannot run out this tick, whichever area gets loaded.
pub open spec fn spawn_headroom(w: AreaWorldView, areas: Seq<AreaView>) -> bool {
    forall|d: int| 0 <= d < areas.len() ==> w.next_id + (#[trigger] areas[d]).passages.len() <= u64::MAX
}

/// The store after one whole tick of the transition subsystem: if the
/// detector emits an event, the executor and the visibility updater both
/// consume that same event; otherwise nothing changes.
pub open spec fn transition_tick_model(w: AreaWorldView, sigs: Seq<CollisionSignal>, areas: Seq<AreaView>) -> AreaWorldView {
    match detector_model(sigs, w) {
        Some(e) => {
            let executed = executor_model(w, e, areas);
            AreaWorldView {
                background: executed.background,
                passages: executed.passages,
                player: executed.player,
                tagged: drawing_model(w.tagged, (e.0).0),
                next_id: executed.next_id,
            }
        },
        None => w,
    }
}

/// One whole simulation tick of the transition subsystem, in the required
/// order: detection first, then execution and visibility update within the
/// same tick, both reading the one event the detector emitted. The event is
/// handed back for the embedding to observe and is never replayed.
pub fn transition_tick(world: &mut AreaWorld, collisions: &Vec<CollisionSignal>, game_areas: &GameAreas) -> (ev: Option<AreaTransitionEvent>)
    requires
        old(world)@.wf(),
        destinations_in_bounds(old(world)@.passages, game_areas@),
        spawn_headroom(old(world)@, game_areas@),
    ensures
        ev == detector_model(collisions@, old(world)@),
        final(world)@ == transition_tick_model(old(world)@, collisions@, game_areas@),
        final(world)@.wf(),
{
    let ev = area_transition_check(collisions, world);
    match &ev {
        Some(e) => {
            proof {
                lemma_candidate_from_passages(collisions@, world@);
            }
            area_transition(world, e, game_areas);
            area_transition_drawing(world, e);
            proof {
                assert(world@ =~= transition_tick_model(old(world)@, collisions@, game_areas@));
            }
        },
        None => {},
    }
    ev
}

} // verus!
