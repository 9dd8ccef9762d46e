use vstd::prelude::*;
use crate::abilities::{
    AbilityInstance, AbilityInstanceLibrary, AbilityState, AbilityTarget,
    AbilityTargetValidatorFunctionIndex, advance_step, advanced, channel_frames,
    lemma_ready_after_recovery,
};
use crate::world::are_friends;
use crate::components::{
    AbilityComponent, AbilityInstanceId, EntityComponent, HealthComponent, PositionComponent,
    TeamComponent, MOVEMENT_ABILITY_INDEX, ChampionComponent, CHAMPION_INPUT_SLOTS,
};
use std::collections::HashMap;
use crate::util::sign;

verus! {

broadcast use vstd::std_specs::hash::group_hash_axioms;

/// The side of the square grid the server places characters on.
pub const GRID_SIZE: usize = 1000;

/// Whether a position lies on the grid, which is centred on the origin: each
/// coordinate is shifted by half the grid's side, and the cell index fits.
pub open spec fn in_grid(x: int, y: int) -> bool {
    &&& -(GRID_SIZE / 2) <= x
    &&& -(GRID_SIZE / 2) <= y
    &&& grid_cell(x, y) < GRID_SIZE * GRID_SIZE
}

/// The cell of a position: coordinates shifted by half the grid's side,
/// laid out row by row.
pub open spec fn grid_cell(x: int, y: int) -> int {
    (x + GRID_SIZE / 2) + (y + GRID_SIZE / 2) * GRID_SIZE
}

/// The grid cell a position falls in.
pub fn grid_index(x: i64, y: i64) -> (r: usize)
    requires
        in_grid(x as int, y as int),
    ensures
        r == grid_cell(x as int, y as int),
{
    let half: i64 = (GRID_SIZE / 2) as i64;
    let side: i64 = GRID_SIZE as i64;
    proof {
        assert((y + 500) * 1000 >= 0) by (nonlinear_arith)
            requires
                y + 500 >= 0,
        ;
    }
    let effective_x: i64 = x + half;
    let effective_y: i64 = y + half;
    proof {
        assert(effective_y < 1000) by (nonlinear_arith)
            requires
                effective_x + effective_y * 1000 < 1000000,
                effective_x >= 0,
        ;
    }
    (effective_x + effective_y * side) as usize
}

/// The first port handed to joining players; each later player gets the
/// next one.
pub const FIRST_PLAYER_PORT: u16 = 4560;

/// The client id and port a joining player is given, when `connection_count`
/// players are connected already: the id is the count (as a byte) and the
/// port is the first player port plus the count (as 16 bits).
pub fn join_settings(connection_count: usize) -> (r: (u8, u16))
    requires
        connection_count % 65536 + FIRST_PLAYER_PORT <= u16::MAX,
    ensures
        r.0 == connection_count % 256,
        r.1 == FIRST_PLAYER_PORT + connection_count % 65536,
{
    let client_id = (connection_count % 256) as u8;
    let port = FIRST_PLAYER_PORT + (connection_count % 65536) as u16;
    (client_id, port)
}

/// What occupies a cell of the placement grid.
#[derive(Clone, Copy, PartialEq, Eq, Structural, Debug)]
pub enum GridSlot {
    Character(usize),
    Empty,
}

/// Slot `i` holds a living character: an entity id, a position and health
/// above zero.
pub open spec fn lives_at(
    entities: Seq<Option<EntityComponent>>,
    positions: Seq<Option<PositionComponent>>,
    health: Seq<Option<HealthComponent>>,
    i: int,
) -> bool {
    &&& 0 <= i < entities.len()
    &&& i < positions.len()
    &&& i < health.len()
    &&& entities[i] is Some
    &&& positions[i] is Some
    &&& health[i] is Some
    &&& health[i].unwrap().current_amount > 0
}

/// The grid with all of its first `GRID_SIZE * GRID_SIZE` cells emptied.
pub open spec fn cleared_grid(grid: Seq<GridSlot>) -> Seq<GridSlot> {
    Seq::new(grid.len(), |i: int| if i < GRID_SIZE * GRID_SIZE { GridSlot::Empty } else { grid[i] })
}

/// The grid and the position of each character after placing the living
/// characters among the first `k` slots, in order, on a cleared grid.
pub open spec fn placement(
    grid: Seq<GridSlot>,
    entities: Seq<Option<EntityComponent>>,
    positions: Seq<Option<PositionComponent>>,
    health: Seq<Option<HealthComponent>>,
    k: nat,
) -> (Seq<GridSlot>, Map<usize, (i64, i64)>)
    decreases k,
{
    if k == 0 {
        (cleared_grid(grid), Map::empty())
    } else {
        let before = placement(grid, entities, positions, health, (k - 1) as nat);
        let i = k - 1;
        if lives_at(entities, positions, health, i) {
            let p = positions[i].unwrap();
            let id = entities[i].unwrap().id;
            (
                before.0.update(grid_cell(p.x as int, p.y as int), GridSlot::Character(id)),
                before.1.insert(id, (p.x, p.y)),
            )
        } else {
            before
        }
    }
}

/// Every living character stands on the grid.
pub open spec fn living_on_grid(
    entities: Seq<Option<EntityComponent>>,
    positions: Seq<Option<PositionComponent>>,
    health: Seq<Option<HealthComponent>>,
) -> bool {
    forall|i: int|
        #[trigger] lives_at(entities, positions, health, i) ==> in_grid(
            positions[i].unwrap().x as int,
            positions[i].unwrap().y as int,
        )
}

/// The number of slots the three columns have in common.
pub open spec fn common_len<A, B, C>(a: Seq<A>, b: Seq<B>, c: Seq<C>) -> nat {
    let ab = if a.len() < b.len() { a.len() } else { b.len() };
    if ab < c.len() { ab } else { c.len() }
}

proof fn lemma_placement_len(
    grid: Seq<GridSlot>,
    entities: Seq<Option<EntityComponent>>,
    positions: Seq<Option<PositionComponent>>,
    health: Seq<Option<HealthComponent>>,
    k: nat,
)
    requires
        grid.len() >= GRID_SIZE * GRID_SIZE,
        living_on_grid(entities, positions, health),
    ensures
        placement(grid, entities, positions, health, k).0.len() == grid.len(),
    decreases k,
{
    if k > 0 {
        lemma_placement_len(grid, entities, positions, health, (k - 1) as nat);
        if lives_at(entities, positions, health, k - 1) {
            let p = positions[k - 1].unwrap();
            assert(in_grid(p.x as int, p.y as int));
        }
    }
}

/// Clears the grid, then places every living character (an entity with a
/// position and health above zero) in the cell of its position; returns the
/// position of each placed character by its id.
pub fn place_living_characters(
    grid: &mut Vec<GridSlot>,
    entities: &Vec<Option<EntityComponent>>,
    positions: &Vec<Option<PositionComponent>>,
    health: &Vec<Option<HealthComponent>>,
) -> (r: HashMap<usize, (i64, i64)>)
    requires
        old(grid)@.len() >= GRID_SIZE * GRID_SIZE,
        living_on_grid(entities@, positions@, health@),
    ensures
        (final(grid)@, r@) == placement(
            old(grid)@,
            entities@,
            positions@,
            health@,
            common_len(entities@, positions@, health@),
        ),
{
    let ghost orig = grid@;
    let mut c: usize = 0;
    while c < GRID_SIZE * GRID_SIZE
        invariant
            c <= GRID_SIZE * GRID_SIZE,
            orig.len() >= GRID_SIZE * GRID_SIZE,
            grid@.len() == orig.len(),
            forall|j: int| 0 <= j < c ==> grid@[j] == GridSlot::Empty,
            forall|j: int| c <= j < orig.len() ==> grid@[j] == orig[j],
        decreases GRID_SIZE * GRID_SIZE - c,
    {
        grid.set(c, GridSlot::Empty);
        c += 1;
    }
    proof {
        assert(grid@ =~= cleared_grid(orig));
    }
    let mut placed: HashMap<usize, (i64, i64)> = HashMap::new();
    let n = if entities.len() < positions.len() { entities.len() } else { positions.len() };
    let n = if n < health.len() { n } else { health.len() };
    let mut i: usize = 0;
    proof {
        assert(placed@ =~= Map::<usize, (i64, i64)>::empty());
    }
    while i < n
        invariant
            n == common_len(entities@, positions@, health@),
            i <= n,
            living_on_grid(entities@, positions@, health@),
            orig.len() >= GRID_SIZE * GRID_SIZE,
            (grid@, placed@) == placement(orig, entities@, positions@, health@, i as nat),
        decreases n - i,
    {
        proof {
            lemma_placement_len(orig, entities@, positions@, health@, i as nat);
        }
        match (entities[i], positions[i], health[i]) {
            (Some(ec), Some(pc), Some(hc)) => {
                if hc.current_amount > 0 {
                    proof {
                        assert(lives_at(entities@, positions@, health@, i as int));
                    }
                    let cell = grid_index(pc.x, pc.y);
                    grid.set(cell, GridSlot::Character(ec.id));
                    placed.insert(ec.id, (pc.x, pc.y));
                }
            },
            _ => {},
        }
        i += 1;
    }
    (placed)
}

/// What a champion is trying to do.
#[derive(Clone, Copy, PartialEq, Eq, Structural, Debug)]
pub enum DesiredAction {
    Attack(usize),
    MoveToPosition(i64, i64),
    Nothing,
}

/// A coordinate clamped at zero from below.
pub open spec fn clamp_to_zero(v: i64) -> int {
    if v < 0 {
        0
    } else {
        v as int
    }
}

/// The grid cell a click lands in: the rounded click coordinates, clamped at
/// zero from below as the conversion of a rounded coordinate to an unsigned
/// index does.
pub open spec fn click_cell(input_x: i64, input_y: i64) -> int {
    grid_cell(clamp_to_zero(input_x), clamp_to_zero(input_y))
}

/// The action after a click: clicking a character of another team attacks
/// it, clicking a friend changes nothing, clicking an empty cell moves to
/// the clicked position.
pub open spec fn action_after_click(
    current: DesiredAction,
    slot: GridSlot,
    teams: Seq<Option<TeamComponent>>,
    caster: usize,
    input_x: i64,
    input_y: i64,
) -> DesiredAction {
    match slot {
        GridSlot::Character(id) => if teams[id as int].unwrap().team == teams[caster as int].unwrap().team {
            current
        } else {
            DesiredAction::Attack(id)
        },
        GridSlot::Empty => DesiredAction::MoveToPosition(input_x, input_y),
    }
}

/// Decides what a champion wants after its player clicks at a (rounded)
/// position on the floor.
pub fn desired_action_after_click(
    current: DesiredAction,
    grid: &Vec<GridSlot>,
    teams: &Vec<Option<TeamComponent>>,
    caster: usize,
    input_x: i64,
    input_y: i64,
) -> (r: DesiredAction)
    requires
        in_grid(clamp_to_zero(input_x), clamp_to_zero(input_y)),
        click_cell(input_x, input_y) < grid@.len(),
        grid@[click_cell(input_x, input_y)] matches GridSlot::Character(id) ==> {
            &&& id < teams@.len()
            &&& caster < teams@.len()
            &&& teams@[id as int] is Some
            &&& teams@[caster as int] is Some
        },
    ensures
        r == action_after_click(
            current,
            grid@[click_cell(input_x, input_y)],
            teams@,
            caster,
            input_x,
            input_y,
        ),
{
    let cell_x: i64 = if input_x < 0 { 0 } else { input_x };
    let cell_y: i64 = if input_y < 0 { 0 } else { input_y };
    let clicked_index = grid_index(cell_x, cell_y);
    match grid[clicked_index] {
        GridSlot::Character(id) => {
            if are_friends(teams, id, caster) == false {
                DesiredAction::Attack(id)
            } else {
                current
            }
        },
        GridSlot::Empty => DesiredAction::MoveToPosition(input_x, input_y),
    }
}

/// A step from a position towards a target stays within `i64`: the distances
/// and the stepped coordinates fit.
pub open spec fn step_fits(x: i64, y: i64, target_x: i64, target_y: i64) -> bool {
    &&& i64::MIN <= target_x - x <= i64::MAX
    &&& i64::MIN <= target_y - y <= i64::MAX
    &&& i64::MIN <= x + sign(target_x - x) <= i64::MAX
    &&& i64::MIN <= y + sign(target_y - y) <= i64::MAX
}

/// One grid step from a position towards a target: each coordinate moves by
/// the sign of its distance.
pub fn step_towards(x: i64, y: i64, target_x: i64, target_y: i64) -> (r: (i64, i64))
    requires
        step_fits(x, y, target_x, target_y),
    ensures
        r.0 == x + sign(target_x - x),
        r.1 == y + sign(target_y - y),
{
    let dx = target_x - x;
    let dy = target_y - y;
    let sx: i64 = if dx > 0 {
        1
    } else if dx < 0 {
        -1
    } else {
        0
    };
    let sy: i64 = if dy > 0 {
        1
    } else if dy < 0 {
        -1
    } else {
        0
    };
    (x + sx, y + sy)
}

/// The ability stored under `id` is ready.
pub open spec fn ready_in(instances: Map<AbilityInstanceId, AbilityInstance>, id: AbilityInstanceId) -> bool {
    instances.contains_key(id) && instances[id].ability_state == AbilityState::Ready
}

/// The instances after aiming the ability stored under `id` at `target` and
/// starting it, if it is stored and ready.
pub open spec fn start_if_ready(
    instances: Map<AbilityInstanceId, AbilityInstance>,
    id: AbilityInstanceId,
    target: AbilityTarget,
) -> Map<AbilityInstanceId, AbilityInstance> {
    if ready_in(instances, id) {
        instances.insert(
            id,
            AbilityInstance { target, ability_state: AbilityState::Channeling, ..instances[id] },
        )
    } else {
        instances
    }
}

/// The position one grid step from `position` towards a point.
pub open spec fn step_target(position: PositionComponent, x: i64, y: i64) -> AbilityTarget {
    AbilityTarget::Position(
        (position.x + sign(x - position.x)) as i64,
        (position.y + sign(y - position.y)) as i64,
    )
}

/// One frame of pursuing a desired action, given whether the target validator
/// of the active ability accepts the attacked character. An attack starts
/// the active ability at the target when it is ready and the validator
/// accepts; when it refuses, the movement ability (if ready) starts one step
/// towards the target's position. A move starts the movement ability (if
/// ready) one step towards the destination, and is done (nothing is
/// desired any more) once the champion stands there.
pub open spec fn pursuit(
    action: DesiredAction,
    instances: Map<AbilityInstanceId, AbilityInstance>,
    abilities: AbilityComponent,
    position: PositionComponent,
    targets: Map<usize, (i64, i64)>,
    in_range: bool,
) -> (Map<AbilityInstanceId, AbilityInstance>, DesiredAction) {
    let movement = abilities.ability_ids[MOVEMENT_ABILITY_INDEX as int];
    match action {
        DesiredAction::Attack(target) => {
            let active = abilities.ability_ids[abilities.active_ability as int];
            if !ready_in(instances, active) {
                (instances, action)
            } else if in_range {
                (start_if_ready(instances, active, AbilityTarget::Character(target)), action)
            } else {
                (
                    start_if_ready(
                        instances,
                        movement,
                        step_target(position, targets[target].0, targets[target].1),
                    ),
                    action,
                )
            }
        },
        DesiredAction::MoveToPosition(x, y) => if x != position.x || y != position.y {
            (start_if_ready(instances, movement, step_target(position, x, y)), action)
        } else {
            (instances, DesiredAction::Nothing)
        },
        DesiredAction::Nothing => (instances, DesiredAction::Nothing),
    }
}

/// What a frame of pursuit needs to stay well defined: the active slot
/// exists, and wherever a step is taken the step fits in `i64`, and for an
/// attack that the validator refuses, the target's position is known.
pub open spec fn pursuit_fits<F: Fn(AbilityTargetValidatorFunctionIndex, AbilityTarget) -> bool>(
    action: DesiredAction,
    instances: Map<AbilityInstanceId, AbilityInstance>,
    abilities: AbilityComponent,
    position: PositionComponent,
    targets: Map<usize, (i64, i64)>,
    validate: F,
) -> bool {
    let movement = abilities.ability_ids[MOVEMENT_ABILITY_INDEX as int];
    match action {
        DesiredAction::Attack(target) => {
            let active = abilities.ability_ids[abilities.active_ability as int];
            &&& abilities.active_ability < 4
            &&& ready_in(instances, active) && ready_in(instances, movement) ==> forall|
                in_range: bool,
            |
                #[trigger] validate.ensures(
                    (instances[active].target_validator, AbilityTarget::Character(target)),
                    in_range,
                ) && !in_range ==> {
                    &&& targets.contains_key(target)
                    &&& step_fits(position.x, position.y, targets[target].0, targets[target].1)
                }
        },
        DesiredAction::MoveToPosition(x, y) => (x != position.x || y != position.y) && ready_in(
            instances,
            movement,
        ) ==> step_fits(position.x, position.y, x, y),
        DesiredAction::Nothing => true,
    }
}

/// Carries a champion's desired action one frame forward, starting its
/// abilities in the library; returns what the champion wants next.
/// `validate` runs a target validator, given by its index, on a target; it
/// is asked only when an attack finds the active ability ready.
pub fn pursue_desired_action<F: Fn(AbilityTargetValidatorFunctionIndex, AbilityTarget) -> bool>(
    action: DesiredAction,
    library: &mut AbilityInstanceLibrary,
    abilities: &AbilityComponent,
    position: PositionComponent,
    targets: &HashMap<usize, (i64, i64)>,
    validate: F,
) -> (r: DesiredAction)
    requires
        forall|i: AbilityTargetValidatorFunctionIndex, t: AbilityTarget| #[trigger] validate.requires((i, t)),
        pursuit_fits(action, old(library).ability_instances@, *abilities, position, targets@, validate),
    ensures
        final(library).ability_count == old(library).ability_count,
        match action {
            DesiredAction::Attack(target) => {
                let active = abilities.ability_ids[abilities.active_ability as int];
                let instances = old(library).ability_instances@;
                if ready_in(instances, active) {
                    exists|in_range: bool|
                        #[trigger] validate.ensures(
                            (instances[active].target_validator, AbilityTarget::Character(target)),
                            in_range,
                        ) && (final(library).ability_instances@, r) == pursuit(
                            action,
                            instances,
                            *abilities,
                            position,
                            targets@,
                            in_range,
                        )
                } else {
                    (final(library).ability_instances@, r) == (instances, action)
                }
            },
            _ => (final(library).ability_instances@, r) == pursuit(
                action,
                old(library).ability_instances@,
                *abilities,
                position,
                targets@,
                false,
            ),
        },
{
    let movement = abilities.ability_ids[MOVEMENT_ABILITY_INDEX];
    let ghost instances = library.ability_instances@;
    match action {
        DesiredAction::Attack(target) => {
            let active = abilities.ability_ids[abilities.active_ability];
            let mut out_of_range = false;
            let ghost mut in_range = true;
            match library.checkout_ability_instance(active) {
                Some(ability_instance) => {
                    if ability_instance.ability_state == AbilityState::Ready {
                        let accepted = validate(
                            ability_instance.target_validator,
                            AbilityTarget::Character(target),
                        );
                        proof {
                            in_range = accepted;
                        }
                        if accepted {
                            ability_instance.start_with_target(AbilityTarget::Character(target));
                        } else {
                            out_of_range = true;
                        }
                    }
                },
                None => {},
            }
            if out_of_range {
                match library.checkout_ability_instance(movement) {
                    Some(ability_instance) => {
                        if ability_instance.ability_state == AbilityState::Ready {
                            match targets.get(&target) {
                                Some(target_position) => {
                                    let (x, y) = step_towards(
                                        position.x,
                                        position.y,
                                        target_position.0,
                                        target_position.1,
                                    );
                                    ability_instance.start_with_target(AbilityTarget::Position(x, y));
                                },
                                None => {},
                            }
                        }
                    },
                    None => {},
                }
            }
            proof {
                if ready_in(instances, active) {
                    assert(library.ability_instances@ =~= pursuit(
                        action,
                        instances,
                        *abilities,
                        position,
                        targets@,
                        in_range,
                    ).0);
                } else {
                    assert(library.ability_instances@ =~= instances);
                }
            }
            action
        },
        DesiredAction::MoveToPosition(x, y) => {
            if x != position.x || y != position.y {
                match library.checkout_ability_instance(movement) {
                    Some(ability_instance) => {
                        if ability_instance.ability_state == AbilityState::Ready {
                            let (step_x, step_y) = step_towards(position.x, position.y, x, y);
                            ability_instance.start_with_target(AbilityTarget::Position(step_x, step_y));
                        }
                    },
                    None => {},
                }
                proof {
                    assert(library.ability_instances@ =~= pursuit(
                        action,
                        instances,
                        *abilities,
                        position,
                        targets@,
                        false,
                    ).0);
                }
                action
            } else {
                DesiredAction::Nothing
            }
        },
        DesiredAction::Nothing => DesiredAction::Nothing,
    }
}

/// One ability slot's frame: an empty slot (id 0) and a ready ability do
/// nothing; a channeling or recovering ability advances, and a request to
/// activate it (entity, ability id) is added when it fires.
pub open spec fn tick_slot(
    instances: Map<AbilityInstanceId, AbilityInstance>,
    requests: Seq<(usize, AbilityInstanceId)>,
    entity_id: usize,
    id: AbilityInstanceId,
) -> (Map<AbilityInstanceId, AbilityInstance>, Seq<(usize, AbilityInstanceId)>) {
    if id == 0 {
        (instances, requests)
    } else {
        let a = instances[id];
        if a.ability_state == AbilityState::Channeling || a.ability_state == AbilityState::Recovering {
            let (next, fired) = advance_step(a);
            (
                instances.insert(id, next),
                if fired {
                    requests.push((entity_id, id))
                } else {
                    requests
                },
            )
        } else {
            (instances, requests)
        }
    }
}

/// The frames of the first `k` ability slots, in slot order.
pub open spec fn tick_slots(
    instances: Map<AbilityInstanceId, AbilityInstance>,
    requests: Seq<(usize, AbilityInstanceId)>,
    entity_id: usize,
    ids: Seq<AbilityInstanceId>,
    k: nat,
) -> (Map<AbilityInstanceId, AbilityInstance>, Seq<(usize, AbilityInstanceId)>)
    decreases k,
{
    if k == 0 {
        (instances, requests)
    } else {
        let before = tick_slots(instances, requests, entity_id, ids, (k - 1) as nat);
        tick_slot(before.0, before.1, entity_id, ids[k - 1])
    }
}

/// Every slot's ability is in the library, and no timer overflows while the
/// first `k` slots advance.
pub open spec fn tick_slots_fit(
    instances: Map<AbilityInstanceId, AbilityInstance>,
    requests: Seq<(usize, AbilityInstanceId)>,
    entity_id: usize,
    ids: Seq<AbilityInstanceId>,
    k: nat,
) -> bool
    decreases k,
{
    if k == 0 {
        true
    } else {
        let before = tick_slots(instances, requests, entity_id, ids, (k - 1) as nat);
        let id = ids[k - 1];
        &&& tick_slots_fit(instances, requests, entity_id, ids, (k - 1) as nat)
        &&& id != 0 ==> {
            &&& before.0.contains_key(id)
            &&& before.0[id].ability_state == AbilityState::Channeling
                ==> before.0[id].current_channel_time < usize::MAX
            &&& before.0[id].ability_state == AbilityState::Recovering
                ==> before.0[id].current_recovery_time < usize::MAX
        }
    }
}

/// Advances every channeling or recovering ability of an entity by one frame,
/// slot by slot, and adds a request (entity, ability id) for each ability that
/// fires. Empty slots (id 0) are skipped; every other slot's ability must be
/// in the library.
pub fn tick_abilities(
    library: &mut AbilityInstanceLibrary,
    entity_id: usize,
    ability_component: &AbilityComponent,
    ability_activation_requests: &mut Vec<(usize, AbilityInstanceId)>,
)
    requires
        tick_slots_fit(
            old(library).ability_instances@,
            old(ability_activation_requests)@,
            entity_id,
            ability_component.ability_ids@,
            4,
        ),
    ensures
        (final(library).ability_instances@, final(ability_activation_requests)@) == tick_slots(
            old(library).ability_instances@,
            old(ability_activation_requests)@,
            entity_id,
            ability_component.ability_ids@,
            4,
        ),
        final(library).ability_count == old(library).ability_count,
{
    let ghost ids = ability_component.ability_ids@;
    let ghost m0 = library.ability_instances@;
    let ghost r0 = ability_activation_requests@;
    let mut k: usize = 0;
    while k < 4
        invariant
            ids == ability_component.ability_ids@,
            ids.len() == 4,
            k <= 4,
            tick_slots_fit(m0, r0, entity_id, ids, 4),
            (library.ability_instances@, ability_activation_requests@) == tick_slots(m0, r0, entity_id, ids, k as nat),
            library.ability_count == old(library).ability_count,
        decreases 4 - k,
    {
        proof {
            lemma_tick_slots_fit_prefix(m0, r0, entity_id, ids, 4, (k + 1) as nat);
        }
        let ability_instance_id = ability_component.ability_ids[k];
        if ability_instance_id != 0 {
            match library.checkout_ability_instance(ability_instance_id) {
                Some(ability_instance) => {
                    if ability_instance.ability_state == AbilityState::Channeling
                        || ability_instance.ability_state == AbilityState::Recovering {
                        if ability_instance.advance() {
                            ability_activation_requests.push((entity_id, ability_instance_id));
                        }
                    }
                },
                None => {},
            }
        }
        proof {
            let before = tick_slots(m0, r0, entity_id, ids, k as nat);
            assert(library.ability_instances@ =~= tick_slot(before.0, before.1, entity_id, ids[k as int]).0);
            assert(ability_activation_requests@ =~= tick_slot(before.0, before.1, entity_id, ids[k as int]).1);
        }
        k += 1;
    }
}

proof fn lemma_tick_slots_fit_prefix(
    instances: Map<AbilityInstanceId, AbilityInstance>,
    requests: Seq<(usize, AbilityInstanceId)>,
    entity_id: usize,
    ids: Seq<AbilityInstanceId>,
    k: nat,
    j: nat,
)
    requires
        tick_slots_fit(instances, requests, entity_id, ids, k),
        j <= k,
    ensures
        tick_slots_fit(instances, requests, entity_id, ids, j),
    decreases k,
{
    if j < k {
        lemma_tick_slots_fit_prefix(instances, requests, entity_id, ids, (k - 1) as nat, j);
    }
}

/// Slot `s` of the four holds an ability that no other slot holds.
pub open spec fn unique_slot(ids: Seq<AbilityInstanceId>, s: int) -> bool {
    &&& ids.len() == 4
    &&& 0 <= s < 4
    &&& ids[s] != 0
    &&& forall|j: int| 0 <= j < 4 && j != s ==> ids[j] != ids[s]
}

proof fn lemma_tick_slots_unique(
    instances: Map<AbilityInstanceId, AbilityInstance>,
    requests: Seq<(usize, AbilityInstanceId)>,
    entity_id: usize,
    ids: Seq<AbilityInstanceId>,
    s: int,
    k: nat,
)
    requires
        unique_slot(ids, s),
        tick_slots_fit(instances, requests, entity_id, ids, 4),
        k <= 4,
    ensures
        ({
            let id = ids[s];
            let after = tick_slots(instances, requests, entity_id, ids, k).0;
            &&& k <= s ==> (after.contains_key(id) == instances.contains_key(id) && (
            instances.contains_key(id) ==> after[id] == instances[id]))
            &&& k > s ==> (instances.contains_key(id) && after.contains_key(id) && after[id]
                == advance_step(instances[id]).0)
        }),
    decreases k,
{
    if k > 0 {
        lemma_tick_slots_unique(instances, requests, entity_id, ids, s, (k - 1) as nat);
        let id = ids[s];
        let j = k - 1;
        let before = tick_slots(instances, requests, entity_id, ids, (k - 1) as nat);
        if j == s {
            lemma_tick_slots_fit_prefix(instances, requests, entity_id, ids, 4, k);
        } else {
            assert(ids[j] != id);
        }
    }
}

/// Law: every frame advances each ability in an entity's slots by one frame
/// of its cycle. A channeling ability counts its channel up and, on reaching
/// the channel time, starts recovering with its channel timer cleared; a
/// recovering ability counts its recovery up and, on reaching the channel
/// time, is ready again with its recovery timer cleared; a ready ability is
/// left as it is. Nothing else about the ability changes. (An ability held
/// in one slot only.)
pub proof fn lemma_tick_advances_every_active_ability(
    instances: Map<AbilityInstanceId, AbilityInstance>,
    requests: Seq<(usize, AbilityInstanceId)>,
    entity_id: usize,
    ids: Seq<AbilityInstanceId>,
    s: int,
)
    requires
        unique_slot(ids, s),
        tick_slots_fit(instances, requests, entity_id, ids, 4),
    ensures
        ({
            let a = instances[ids[s]];
            let b = tick_slots(instances, requests, entity_id, ids, 4).0[ids[s]];
            &&& instances.contains_key(ids[s])
            &&& tick_slots(instances, requests, entity_id, ids, 4).0.contains_key(ids[s])
            &&& b.target == a.target && b.channel_time == a.channel_time && b.recovery_time
                == a.recovery_time && b.action == a.action && b.target_validator
                == a.target_validator && b.range == a.range
            &&& a.ability_state == AbilityState::Ready ==> b == a
            &&& a.ability_state == AbilityState::Channeling ==> {
                &&& b.current_recovery_time == a.current_recovery_time
                &&& a.current_channel_time + 1 >= a.channel_time ==> b.ability_state
                    == AbilityState::Recovering && b.current_channel_time == 0
                &&& a.current_channel_time + 1 < a.channel_time ==> b.ability_state
                    == AbilityState::Channeling && b.current_channel_time == a.current_channel_time
                    + 1
            }
            &&& a.ability_state == AbilityState::Recovering ==> {
                &&& b.current_channel_time == a.current_channel_time
                &&& a.current_recovery_time + 1 >= a.channel_time ==> b.ability_state
                    == AbilityState::Ready && b.current_recovery_time == 0
                &&& a.current_recovery_time + 1 < a.channel_time ==> b.ability_state
                    == AbilityState::Recovering && b.current_recovery_time
                    == a.current_recovery_time + 1
            }
        }),
{
    lemma_tick_slots_unique(instances, requests, entity_id, ids, s, 4);
}

/// The abilities after `n` frames of ticking an entity's slots (the
/// activation requests a frame collects do not change the abilities).
pub open spec fn frames_ticked(
    instances: Map<AbilityInstanceId, AbilityInstance>,
    entity_id: usize,
    ids: Seq<AbilityInstanceId>,
    n: nat,
) -> Map<AbilityInstanceId, AbilityInstance>
    decreases n,
{
    if n == 0 {
        instances
    } else {
        tick_slots(frames_ticked(instances, entity_id, ids, (n - 1) as nat), Seq::empty(), entity_id, ids, 4).0
    }
}

/// Law: an ability that has fired comes back. Ticking an entity whose slot
/// holds a recovering ability with a cleared recovery timer makes it ready
/// again after as many frames as its recovery lasts (the channel time, and at
/// least one), and it stays recovering until then. (An ability held in one
/// slot only, with no timer overflowing on the way.)
pub proof fn lemma_recovered_after_ticks(
    instances: Map<AbilityInstanceId, AbilityInstance>,
    entity_id: usize,
    ids: Seq<AbilityInstanceId>,
    s: int,
)
    requires
        unique_slot(ids, s),
        instances.contains_key(ids[s]),
        instances[ids[s]].ability_state == AbilityState::Recovering,
        instances[ids[s]].current_recovery_time == 0,
        forall|m: nat| m < channel_frames(instances[ids[s]]) ==> #[trigger] tick_slots_fit(
            frames_ticked(instances, entity_id, ids, m),
            Seq::empty(),
            entity_id,
            ids,
            4,
        ),
    ensures
        frames_ticked(instances, entity_id, ids, channel_frames(instances[ids[s]]))[ids[s]].ability_state
            == AbilityState::Ready,
        forall|m: nat| m < channel_frames(instances[ids[s]]) ==> (#[trigger] frames_ticked(instances, entity_id, ids, m))[ids[s]].ability_state
            == AbilityState::Recovering,
{
    let a = instances[ids[s]];
    lemma_frames_ticked_advanced(instances, entity_id, ids, s, channel_frames(a));
    lemma_ready_after_recovery(a);
    assert forall|m: nat| m < channel_frames(a) implies (#[trigger] frames_ticked(instances, entity_id, ids, m))[ids[s]].ability_state
        == AbilityState::Recovering by {
        lemma_frames_ticked_advanced(instances, entity_id, ids, s, m);
    }
}

proof fn lemma_frames_ticked_advanced(
    instances: Map<AbilityInstanceId, AbilityInstance>,
    entity_id: usize,
    ids: Seq<AbilityInstanceId>,
    s: int,
    n: nat,
)
    requires
        unique_slot(ids, s),
        instances.contains_key(ids[s]),
        forall|m: nat| m < n ==> #[trigger] tick_slots_fit(
            frames_ticked(instances, entity_id, ids, m),
            Seq::empty(),
            entity_id,
            ids,
            4,
        ),
    ensures
        frames_ticked(instances, entity_id, ids, n).contains_key(ids[s]),
        frames_ticked(instances, entity_id, ids, n)[ids[s]] == advanced(instances[ids[s]], n),
    decreases n,
{
    if n > 0 {
        lemma_frames_ticked_advanced(instances, entity_id, ids, s, (n - 1) as nat);
        let before = frames_ticked(instances, entity_id, ids, (n - 1) as nat);
        assert(tick_slots_fit(before, Seq::empty(), entity_id, ids, 4));
        lemma_tick_slots_unique(before, Seq::empty(), entity_id, ids, s, 4);
    }
}

/// Law: a move is done only when the champion stands on its destination.
/// Until then the move is kept, and a ready movement ability is started one
/// grid step towards the destination (each coordinate moving by the sign of
/// its distance); a busy movement ability leaves the abilities as they are.
/// Standing on the destination, nothing is desired any more and no ability
/// changes.
pub proof fn lemma_move_steps_until_arrived(
    instances: Map<AbilityInstanceId, AbilityInstance>,
    abilities: AbilityComponent,
    position: PositionComponent,
    targets: Map<usize, (i64, i64)>,
    in_range: bool,
    x: i64,
    y: i64,
)
    ensures
        ({
            let (after, next) = pursuit(
                DesiredAction::MoveToPosition(x, y),
                instances,
                abilities,
                position,
                targets,
                in_range,
            );
            let movement = abilities.ability_ids[MOVEMENT_ABILITY_INDEX as int];
            let step_x = position.x + if x > position.x { 1int } else if x < position.x { -1int } else { 0int };
            let step_y = position.y + if y > position.y { 1int } else if y < position.y { -1int } else { 0int };
            &&& (x != position.x || y != position.y) ==> {
                &&& next == DesiredAction::MoveToPosition(x, y)
                &&& instances.contains_key(movement) && instances[movement].ability_state
                    == AbilityState::Ready ==> {
                    &&& after.contains_key(movement)
                    &&& after[movement].ability_state == AbilityState::Channeling
                    &&& after[movement].target == AbilityTarget::Position(step_x as i64, step_y as i64)
                    &&& forall|id: AbilityInstanceId| id != movement ==> #[trigger] after.contains_key(id)
                        == instances.contains_key(id) && (instances.contains_key(id) ==> after[id] == instances[id])
                }
                &&& !(instances.contains_key(movement) && instances[movement].ability_state
                    == AbilityState::Ready) ==> after == instances
            }
            &&& (x == position.x && y == position.y) ==> next == DesiredAction::Nothing && after
                == instances
        }),
{
}

/// Law: what a click makes a champion want, whatever the current action,
/// teams, caster and click: an empty cell means moving to exactly the clicked
/// (rounded) coordinates, whatever their sign; a character of another team
/// means attacking it; a character of the caster's own team changes nothing.
pub proof fn lemma_click_outcomes(
    current: DesiredAction,
    slot: GridSlot,
    teams: Seq<Option<TeamComponent>>,
    caster: usize,
    input_x: i64,
    input_y: i64,
)
    ensures
        slot == GridSlot::Empty ==> action_after_click(current, slot, teams, caster, input_x, input_y)
            == DesiredAction::MoveToPosition(input_x, input_y),
        forall|id: usize|
            slot == GridSlot::Character(id) && teams[id as int].unwrap().team != teams[caster as int].unwrap().team
                ==> #[trigger] action_after_click(current, GridSlot::Character(id), teams, caster, input_x, input_y)
                == DesiredAction::Attack(id),
        forall|id: usize|
            slot == GridSlot::Character(id) && teams[id as int].unwrap().team == teams[caster as int].unwrap().team
                ==> #[trigger] action_after_click(current, GridSlot::Character(id), teams, caster, input_x, input_y)
                == current,
{
}

/// Entities after marking every entity whose health is zero as no longer in use.
pub open spec fn marked_dead(
    entities: Seq<Option<EntityComponent>>,
    health: Seq<Option<HealthComponent>>,
) -> Seq<Option<EntityComponent>> {
    Seq::new(
        entities.len(),
        |i: int|
            if i < health.len() && entities[i] is Some && health[i] is Some
                && health[i].unwrap().current_amount == 0 {
                Some(EntityComponent { in_use: false, ..entities[i].unwrap() })
            } else {
                entities[i]
            },
    )
}

/// Marks every entity whose health is zero as no longer in use.
pub fn mark_dead_entities(entities: &mut Vec<Option<EntityComponent>>, health: &Vec<Option<HealthComponent>>)
    ensures
        final(entities)@ == marked_dead(old(entities)@, health@),
{
    let ghost orig = entities@;
    let n = if entities.len() < health.len() { entities.len() } else { health.len() };
    let mut i: usize = 0;
    while i < n
        invariant
            n <= orig.len(),
            n <= health@.len(),
            n == orig.len() || n == health@.len(),
            i <= n,
            entities@.len() == orig.len(),
            forall|j: int| 0 <= j < i ==> entities@[j] == marked_dead(orig, health@)[j],
            forall|j: int| i <= j < orig.len() ==> entities@[j] == orig[j],
        decreases n - i,
    {
        match (entities[i], &health[i]) {
            (Some(entity), Some(h)) => {
                if h.current_amount == 0 {
                    entities.set(i, Some(EntityComponent { id: entity.id, in_use: false }));
                }
            },
            _ => {},
        }
        i += 1;
    }
    proof {
        assert(entities@ =~= marked_dead(orig, health@));
    }
}

/// Once its player has sent a full window of mouse inputs, a champion takes
/// the first sixteen of them and starts using them from the oldest; with a
/// shorter window it keeps what it has.
pub fn take_desired_inputs<M: Copy>(champion: &mut ChampionComponent<M>, desired_inputs: &Vec<M>)
    ensures
        desired_inputs@.len() >= CHAMPION_INPUT_SLOTS ==> {
            &&& final(champion).desired_inputs@ == desired_inputs@.take(16)
            &&& final(champion).current_input_to_use == 0
            &&& final(champion).champion_index == old(champion).champion_index
        },
        desired_inputs@.len() < CHAMPION_INPUT_SLOTS ==> *final(champion) == *old(champion),
{
    if desired_inputs.len() >= CHAMPION_INPUT_SLOTS {
        let d = desired_inputs;
        champion.desired_inputs = [
            d[0], d[1], d[2], d[3], d[4], d[5], d[6], d[7],
            d[8], d[9], d[10], d[11], d[12], d[13], d[14], d[15],
        ];
        champion.current_input_to_use = 0;
        proof {
            assert(champion.desired_inputs@ =~= desired_inputs@.take(16));
        }
    }
}

/// Law: each entity is marked on its own: an entity whose health is zero is
/// no longer in use (keeping its id), whatever the other entities are; every
/// other entity, and every entity without health, is left as it is.
pub proof fn lemma_dead_are_marked_one_by_one(
    entities: Seq<Option<EntityComponent>>,
    health: Seq<Option<HealthComponent>>,
)
    ensures
        marked_dead(entities, health).len() == entities.len(),
        forall|i: int|
            0 <= i < entities.len() && i < health.len() && entities[i] is Some && #[trigger] health[i]
                == Some(HealthComponent { current_amount: 0 }) ==> marked_dead(entities, health)[i]
                == Some(EntityComponent { id: entities[i].unwrap().id, in_use: false }),
        forall|i: int|
            0 <= i < entities.len() && !(i < health.len() && #[trigger] health[i] == Some(
                HealthComponent { current_amount: 0 },
            )) ==> marked_dead(entities, health)[i] == entities[i],
{
}

/// The length of the sliding window of inputs a player sends.
pub const INPUT_WINDOW: usize = 16;

/// Adds the newest input to a sliding window, dropping the oldest when the
/// window already holds 16 or more.
pub fn push_to_input_window<T>(window: &mut Vec<T>, input: T)
    ensures
        final(window)@ == if old(window)@.len() >= INPUT_WINDOW {
            old(window)@.remove(0).push(input)
        } else {
            old(window)@.push(input)
        },
{
    if window.len() >= INPUT_WINDOW {
        window.remove(0);
    }
    window.push(input);
}


/// The window after pushing `inputs` in order onto an empty window.
pub open spec fn window_after<T>(inputs: Seq<T>) -> Seq<T>
    decreases inputs.len(),
{
    if inputs.len() == 0 {
        Seq::empty()
    } else {
        let before = window_after(inputs.drop_last());
        if before.len() >= INPUT_WINDOW {
            before.remove(0).push(inputs.last())
        } else {
            before.push(inputs.last())
        }
    }
}

/// Law: a window that starts empty always holds exactly the latest 16 inputs
/// pushed (all of them while there are fewer), oldest first, so each message
/// repeats the inputs of the messages before it.
pub proof fn lemma_window_holds_latest_inputs<T>(inputs: Seq<T>)
    ensures
        window_after(inputs) == if inputs.len() <= INPUT_WINDOW {
            inputs
        } else {
            inputs.skip(inputs.len() - INPUT_WINDOW)
        },
    decreases inputs.len(),
{
    if inputs.len() > 0 {
        let prev = inputs.drop_last();
        lemma_window_holds_latest_inputs(prev);
        if prev.len() >= INPUT_WINDOW {
            assert(window_after(inputs) =~= inputs.skip(inputs.len() - INPUT_WINDOW));
        } else {
            assert(window_after(inputs) =~= inputs);
        }
    }
}

} // verus!
