use vstd::prelude::*;
use std::collections::HashMap;
use std::collections::hash_map::Entry;
use crate::components::{AbilityInstanceId, PositionComponent};
use crate::runes::{Rune, RuneSystem, MoveRune, DamageRune, with_rune};
use crate::util::sign;

verus! {

broadcast use vstd::std_specs::hash::group_hash_axioms;

/// Indexes an ability's action in the library of action functions.
pub type AbilityActionFunctionIndex = usize;

/// Indexes an ability's target validator in the library of validators.
pub type AbilityTargetValidatorFunctionIndex = usize;

/// What an ability is aimed at.
#[derive(Clone, Copy, PartialEq, Eq, Structural, Debug)]
pub enum AbilityTarget {
    NoTarget,
    Character(usize),
    Position(i64, i64),
}

/// Where an ability is in its cycle.
#[derive(Clone, Copy, PartialEq, Eq, Structural, Debug)]
pub enum AbilityState {
    Ready,
    Channeling,
    Recovering,
}

/// One use of an ability: it channels, fires its action, then recovers.
pub struct AbilityInstance {
    pub target_validator: AbilityTargetValidatorFunctionIndex,
    pub ability_state: AbilityState,
    pub channel_time: usize,
    pub current_channel_time: usize,
    pub action: AbilityActionFunctionIndex,
    pub recovery_time: usize,
    pub current_recovery_time: usize,
    pub target: AbilityTarget,
    pub range: usize,
}

/// One frame of an ability's cycle. Channeling counts up and, on reaching the
/// channel time, fires (returns true) and starts recovering; recovering counts
/// up and, on reaching the channel time, becomes ready again; a ready ability
/// stays as it is.
pub open spec fn advance_step(a: AbilityInstance) -> (AbilityInstance, bool) {
    match a.ability_state {
        AbilityState::Channeling => if a.current_channel_time + 1 >= a.channel_time {
            (
                AbilityInstance {
                    current_channel_time: 0,
                    ability_state: AbilityState::Recovering,
                    ..a
                },
                true,
            )
        } else {
            (
                AbilityInstance {
                    current_channel_time: (a.current_channel_time + 1) as usize,
                    ..a
                },
                false,
            )
        },
        AbilityState::Recovering => if a.current_recovery_time + 1 >= a.channel_time {
            (
                AbilityInstance {
                    current_recovery_time: 0,
                    ability_state: AbilityState::Ready,
                    ..a
                },
                false,
            )
        } else {
            (
                AbilityInstance {
                    current_recovery_time: (a.current_recovery_time + 1) as usize,
                    ..a
                },
                false,
            )
        },
        AbilityState::Ready => (a, false),
    }
}

impl AbilityInstance {
    pub fn new(
        channel_time: usize,
        recovery_time: usize,
        action: AbilityActionFunctionIndex,
        target_validator: AbilityTargetValidatorFunctionIndex,
        range: usize,
    ) -> (r: AbilityInstance)
        ensures
            r == (AbilityInstance {
                target_validator,
                ability_state: AbilityState::Ready,
                channel_time,
                current_channel_time: 0,
                action,
                recovery_time,
                current_recovery_time: 0,
                target: AbilityTarget::NoTarget,
                range,
            }),
    {
        AbilityInstance {
            target_validator,
            ability_state: AbilityState::Ready,
            channel_time,
            current_channel_time: 0,
            action,
            recovery_time,
            current_recovery_time: 0,
            target: AbilityTarget::NoTarget,
            range,
        }
    }

    /// Aims the ability and starts channeling it.
    pub fn start_with_target(&mut self, target: AbilityTarget)
        ensures
            *final(self) == (AbilityInstance {
                target,
                ability_state: AbilityState::Channeling,
                ..*old(self)
            }),
    {
        self.target = target;
        self.ability_state = AbilityState::Channeling;
    }

    /// Moves the ability one frame through its cycle; true when it fires.
    pub fn advance(&mut self) -> (fired: bool)
        requires
            old(self).ability_state == AbilityState::Channeling ==> old(self).current_channel_time
                < usize::MAX,
            old(self).ability_state == AbilityState::Recovering ==> old(self).current_recovery_time
                < usize::MAX,
        ensures
            (*final(self), fired) == advance_step(*old(self)),
    {
        match self.ability_state {
            AbilityState::Channeling => {
                self.current_channel_time += 1;
                if self.current_channel_time >= self.channel_time {
                    self.current_channel_time = 0;
                    self.ability_state = AbilityState::Recovering;
                    return true;
                }
                return false;
            },
            AbilityState::Recovering => {
                self.current_recovery_time += 1;
                if self.current_recovery_time >= self.channel_time {
                    self.current_recovery_time = 0;
                    self.ability_state = AbilityState::Ready;
                }
                return false;
            },
            _ => {
                return false;
            },
        }
    }

    /// Makes the ability ready again with its timers cleared.
    pub fn reset(&mut self)
        ensures
            *final(self) == (AbilityInstance {
                current_channel_time: 0,
                current_recovery_time: 0,
                ability_state: AbilityState::Ready,
                ..*old(self)
            }),
    {
        self.current_channel_time = 0;
        self.current_recovery_time = 0;
        self.ability_state = AbilityState::Ready;
    }
}

/// The instance after `n` frames of its cycle.
pub open spec fn advanced(a: AbilityInstance, n: nat) -> AbilityInstance
    decreases n,
{
    if n == 0 {
        a
    } else {
        advance_step(advanced(a, (n - 1) as nat)).0
    }
}

/// Whether the `n`-th frame (counting from 1) fires.
pub open spec fn fires_at(a: AbilityInstance, n: nat) -> bool {
    n >= 1 && advance_step(advanced(a, (n - 1) as nat)).1
}

/// The number of frames a channel lasts: the channel time, and at least one.
pub open spec fn channel_frames(a: AbilityInstance) -> nat {
    if a.channel_time == 0 {
        1
    } else {
        a.channel_time as nat
    }
}

proof fn lemma_channel_progress(a: AbilityInstance, n: nat)
    requires
        a.ability_state == AbilityState::Channeling,
        a.current_channel_time == 0,
        n < channel_frames(a),
    ensures
        advanced(a, n) == (AbilityInstance { current_channel_time: n as usize, ..a }),
        forall|k: nat| 1 <= k <= n ==> !#[trigger] fires_at(a, k),
    decreases n,
{
    if n > 0 {
        lemma_channel_progress(a, (n - 1) as nat);
        assert(advanced(a, n) =~= advance_step(advanced(a, (n - 1) as nat)).0);
        assert forall|k: nat| 1 <= k <= n implies !#[trigger] fires_at(a, k) by {
            if k < n {
            }
        }
    }
}

/// Law: an ability that starts channeling from a cleared channel timer fires
/// on exactly the frame the channel ends (the channel time, and at least one
/// frame), not before; until then it keeps channeling, its channel timer
/// counting the frames, and afterwards it is recovering with its channel
/// timer cleared.
pub proof fn lemma_fires_after_channel(a: AbilityInstance)
    requires
        a.ability_state == AbilityState::Channeling,
        a.current_channel_time == 0,
    ensures
        fires_at(a, channel_frames(a)),
        forall|k: nat| 1 <= k < channel_frames(a) ==> !#[trigger] fires_at(a, k),
        forall|k: nat|
            0 <= k < channel_frames(a) ==> #[trigger] advanced(a, k) == (AbilityInstance {
                current_channel_time: k as usize,
                ..a
            }),
        advanced(a, channel_frames(a)) == (AbilityInstance {
            current_channel_time: 0,
            ability_state: AbilityState::Recovering,
            ..a
        }),
{
    let n = (channel_frames(a) - 1) as nat;
    lemma_channel_progress(a, n);
    assert forall|k: nat| 0 <= k < channel_frames(a) implies #[trigger] advanced(a, k) == (
    AbilityInstance { current_channel_time: k as usize, ..a }) by {
        lemma_channel_progress(a, k);
    }
}

proof fn lemma_recovery_progress(a: AbilityInstance, n: nat)
    requires
        a.ability_state == AbilityState::Recovering,
        a.current_recovery_time == 0,
        n < channel_frames(a),
    ensures
        advanced(a, n) == (AbilityInstance { current_recovery_time: n as usize, ..a }),
        forall|k: nat| 1 <= k <= n ==> !#[trigger] fires_at(a, k),
    decreases n,
{
    if n > 0 {
        lemma_recovery_progress(a, (n - 1) as nat);
        assert(advanced(a, n) =~= advance_step(advanced(a, (n - 1) as nat)).0);
        assert forall|k: nat| 1 <= k <= n implies !#[trigger] fires_at(a, k) by {
            if k < n {
            }
        }
    }
}

/// Law: an ability that starts recovering from a cleared recovery timer is
/// ready again, its recovery timer cleared, on exactly the frame its recovery
/// ends, and does not fire meanwhile. Recovery lasts as long as the channel
/// (the channel time, and at least one frame).
pub proof fn lemma_ready_after_recovery(a: AbilityInstance)
    requires
        a.ability_state == AbilityState::Recovering,
        a.current_recovery_time == 0,
    ensures
        forall|k: nat| 1 <= k <= channel_frames(a) ==> !#[trigger] fires_at(a, k),
        advanced(a, channel_frames(a)) == (AbilityInstance {
            current_recovery_time: 0,
            ability_state: AbilityState::Ready,
            ..a
        }),
        forall|k: nat| 0 <= k < channel_frames(a) ==> #[trigger] advanced(a, k).ability_state
            == AbilityState::Recovering,
{
    let n = (channel_frames(a) - 1) as nat;
    lemma_recovery_progress(a, n);
    assert forall|k: nat| 1 <= k <= channel_frames(a) implies !#[trigger] fires_at(a, k) by {
        if k < channel_frames(a) {
        }
    }
    assert forall|k: nat| 0 <= k < channel_frames(a) implies #[trigger] advanced(a, k).ability_state
        == AbilityState::Recovering by {
        lemma_recovery_progress(a, k);
    }
}

/// The library of ability instances, by id; ids are handed out from 1.
pub struct AbilityInstanceLibrary {
    pub ability_count: usize,
    pub ability_instances: HashMap<AbilityInstanceId, AbilityInstance>,
}

/// No instance handed out after a library is made. The value 0 is never
/// an instance id: it marks an empty ability slot.
pub const NULL_ABILITY_VALUE: usize = 0;

/// The id of the basic movement action, which is loaded first.
pub const BASIC_MOVEMENT_ABILITY_FUNCTION_ID: AbilityActionFunctionIndex = 1;

/// The id of the auto-attack action, which is loaded second.
pub const AUTOATTACK_ABILITY_FUNCTION_ID: AbilityActionFunctionIndex = 2;

/// Every stored instance has an id from 1 to the count of instances added.
pub open spec fn ids_handed_out(count: usize, instances: Map<AbilityInstanceId, AbilityInstance>) -> bool {
    forall|id: AbilityInstanceId| #[trigger] instances.contains_key(id) ==> 1 <= id <= count
}

impl AbilityInstanceLibrary {
    pub fn new() -> (r: AbilityInstanceLibrary)
        ensures
            r.ability_count == 0,
            r.ability_instances@ == Map::<AbilityInstanceId, AbilityInstance>::empty(),
            ids_handed_out(r.ability_count, r.ability_instances@),
    {
        AbilityInstanceLibrary { ability_count: 0, ability_instances: HashMap::new() }
    }

    /// Stores an instance under the next id and returns that id.
    pub fn add_new_ability_instance(&mut self, ability_instance: AbilityInstance) -> (id:
        AbilityInstanceId)
        requires
            old(self).ability_count < usize::MAX,
        ensures
            id == old(self).ability_count + 1,
            final(self).ability_count == id,
            final(self).ability_instances@ == old(self).ability_instances@.insert(
                id,
                ability_instance,
            ),
            ids_handed_out(old(self).ability_count, old(self).ability_instances@) ==> (
            !old(self).ability_instances@.contains_key(id) && ids_handed_out(
                final(self).ability_count,
                final(self).ability_instances@,
            )),
    {
        self.ability_count += 1;
        self.ability_instances.insert(self.ability_count, ability_instance);
        self.ability_count
    }

    /// Hands out the instance stored under `id` for changing, if there is one.
    pub fn checkout_ability_instance(&mut self, id: AbilityInstanceId) -> (r: Option<
        &mut AbilityInstance,
    >)
        ensures
            final(self).ability_count == old(self).ability_count,
            match r {
                Some(a) => {
                    &&& old(self).ability_instances@.contains_key(id)
                    &&& *a == old(self).ability_instances@[id]
                    &&& final(self).ability_instances@ == old(self).ability_instances@.insert(
                        id,
                        *final(a),
                    )
                },
                None => {
                    &&& !old(self).ability_instances@.contains_key(id)
                    &&& final(self).ability_instances@ == old(self).ability_instances@
                },
            },
    {
        match self.ability_instances.entry(id) {
            Entry::Occupied(entry) => Some(entry.into_mut()),
            Entry::Vacant(_) => None,
        }
    }
}


/// The count and instances of a new library after each of `items` is added
/// in order, as `new` and `add_new_ability_instance` leave them.
pub open spec fn library_after_adds(items: Seq<AbilityInstance>) -> (usize, Map<AbilityInstanceId, AbilityInstance>)
    decreases items.len(),
{
    if items.len() == 0 {
        (0, Map::empty())
    } else {
        let before = library_after_adds(items.drop_last());
        ((before.0 + 1) as usize, before.1.insert((before.0 + 1) as usize, items.last()))
    }
}

/// Law: a new library hands out the ids 1, 2, 3, ... in order of addition,
/// and the id of the `j`-th added instance finds it; no other id (0, the
/// empty slot, among them) finds anything.
pub proof fn lemma_library_hands_out_ids_in_order(items: Seq<AbilityInstance>)
    requires
        items.len() < usize::MAX,
    ensures
        library_after_adds(items).0 == items.len(),
        forall|j: int| 1 <= j <= items.len() ==> #[trigger] library_after_adds(items).1.contains_key(j as usize)
            && library_after_adds(items).1[j as usize] == items[j - 1],
        forall|i: AbilityInstanceId| #[trigger] library_after_adds(items).1.contains_key(i) <==> 1 <= i <= items.len(),
    decreases items.len(),
{
    if items.len() > 0 {
        let prev = items.drop_last();
        lemma_library_hands_out_ids_in_order(prev);
        let m = library_after_adds(items).1;
        assert forall|j: int| 1 <= j <= items.len() implies #[trigger] m.contains_key(j as usize)
            && m[j as usize] == items[j - 1] by {
            if j < items.len() {
                assert(prev[j - 1] == items[j - 1]);
                assert(library_after_adds(prev).1.contains_key(j as usize));
            }
        }
    }
}

/// Whether an ability is aimed at a position.
pub fn target_is_position(ability_target: &AbilityTarget) -> (r: bool)
    ensures
        r == (*ability_target is Position),
{
    match ability_target {
        AbilityTarget::Position(_x, _y) => {
            return true;
        },
        _ => {
            return false;
        },
    }
}

/// The damage one auto-attack deals.
pub const AUTOATTACK_DAMAGE: usize = 10;

/// The auto-attack action: an attack on a character deals it fixed damage;
/// any other target does nothing.
pub fn autoattack(casting_character: usize, ability_target: &AbilityTarget, rune_system: &mut RuneSystem)
    ensures
        final(rune_system).runes() == match *ability_target {
            AbilityTarget::Character(target_id) => with_rune(
                old(rune_system).runes(),
                Rune::DamageRune(
                    Box::new(
                        DamageRune {
                            source: casting_character,
                            target: target_id,
                            amount: AUTOATTACK_DAMAGE,
                        },
                    ),
                ),
            ),
            _ => old(rune_system).runes(),
        },
{
    match ability_target {
        AbilityTarget::Character(target_id) => {
            let damage_rune = DamageRune::new(casting_character, *target_id, AUTOATTACK_DAMAGE);
            rune_system.add_rune(Rune::DamageRune(Box::new(damage_rune)));
        },
        _ => {},
    }
}

/// Where the caster stands: its position if the caster has an entry in the
/// positions, the origin otherwise.
pub open spec fn caster_position(positions: Seq<Option<PositionComponent>>, caster: usize) -> (
    i64,
    i64,
) {
    if caster < positions.len() {
        (positions[caster as int].unwrap().x, positions[caster as int].unwrap().y)
    } else {
        (0, 0)
    }
}

/// The basic movement action: towards a position it moves the caster one
/// grid step (by the sign of each distance); aimed at a character it does
/// nothing.
pub fn basic_movement(
    casting_character: usize,
    positions: &Vec<Option<PositionComponent>>,
    ability_target: &AbilityTarget,
    rune_system: &mut RuneSystem,
)
    requires
        !(*ability_target is NoTarget),
        casting_character < positions@.len() ==> positions@[casting_character as int] is Some,
        *ability_target matches AbilityTarget::Position(x, y) ==> {
            &&& i64::MIN <= x - caster_position(positions@, casting_character).0 <= i64::MAX
            &&& i64::MIN <= y - caster_position(positions@, casting_character).1 <= i64::MAX
        },
    ensures
        final(rune_system).runes() == match *ability_target {
            AbilityTarget::Position(x, y) => with_rune(
                old(rune_system).runes(),
                Rune::MoveRune(
                    Box::new(
                        MoveRune {
                            entity: casting_character,
                            offset_x: sign(x - caster_position(positions@, casting_character).0) as i64,
                            offset_y: sign(y - caster_position(positions@, casting_character).1) as i64,
                        },
                    ),
                ),
            ),
            _ => old(rune_system).runes(),
        },
{
    let mut position_x: i64 = 0;
    let mut position_y: i64 = 0;
    if casting_character < positions.len() {
        match positions[casting_character] {
            Some(pc) => {
                position_x = pc.x;
                position_y = pc.y;
            },
            None => {},
        }
    }
    match ability_target {
        AbilityTarget::Character(_id) => {},
        AbilityTarget::Position(destination_x, destination_y) => {
            let x_difference = *destination_x - position_x;
            let x_update: i64 = if x_difference > 0 {
                1
            } else if x_difference < 0 {
                -1
            } else {
                0
            };
            let y_difference = *destination_y - position_y;
            let y_update: i64 = if y_difference > 0 {
                1
            } else if y_difference < 0 {
                -1
            } else {
                0
            };
            let move_rune = MoveRune::new(casting_character, x_update, y_update);
            rune_system.add_rune(Rune::MoveRune(Box::new(move_rune)));
        },
        AbilityTarget::NoTarget => {},
    }
}

} // verus!
