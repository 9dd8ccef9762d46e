use vstd::prelude::*;
use rand::Rng;

verus! {

/// The kinds of components an entity can be tagged with.
#[derive(Clone, Copy, PartialEq, Eq, Structural, Debug, Hash)]
pub enum ComponentType {
    TransformComponent,
    ChampionComponent,
    AttributeComponent,
}

/// Identifies an ability instance in the ability library.
pub type AbilityInstanceId = usize;

/// The slot of the movement ability in an entity's abilities.
pub const MOVEMENT_ABILITY_INDEX: usize = 0;

/// The abilities an entity can use and which one is active.
#[derive(Clone, Copy, PartialEq, Eq, Debug)]
pub struct AbilityComponent {
    pub ability_ids: [AbilityInstanceId; 4],
    pub active_ability: usize,
}

impl AbilityComponent {
    /// The active ability starts at slot 1: the movement ability (slot 0) is
    /// always the default last action.
    pub fn new(ability_ids: [AbilityInstanceId; 4]) -> (r: AbilityComponent)
        ensures
            r.ability_ids == ability_ids,
            r.active_ability == 1,
    {
        AbilityComponent { ability_ids, active_ability: 1 }
    }
}

/// The attack an entity is carrying out.
#[derive(Clone, Copy, PartialEq, Eq, Structural, Debug)]
pub struct AttackStateComponent {
    pub is_attacking: bool,
    pub range: usize,
    pub current_target: usize,
    pub cooldown_timer: usize,
    pub current_cooldown: usize,
    pub channel_timer: usize,
    pub current_channel: usize,
    pub location_x: i64,
    pub location_y: i64,
}

impl AttackStateComponent {
    pub fn new(cooldown_timer: usize, range: usize, channel_timer: usize) -> (r:
        AttackStateComponent)
        ensures
            r == (AttackStateComponent {
                is_attacking: false,
                range,
                current_target: 0,
                cooldown_timer,
                current_cooldown: 0,
                channel_timer,
                current_channel: 0,
                location_x: 0,
                location_y: 0,
            }),
    {
        AttackStateComponent {
            is_attacking: false,
            range,
            current_target: 0,
            cooldown_timer,
            current_cooldown: 0,
            channel_timer,
            current_channel: 0,
            location_x: 0,
            location_y: 0,
        }
    }

    pub fn start_attacking(&mut self, target: usize, location_x: i64, location_y: i64)
        ensures
            *final(self) == (AttackStateComponent {
                is_attacking: true,
                current_target: target,
                location_x,
                location_y,
                ..*old(self)
            }),
    {
        self.is_attacking = true;
        self.current_target = target;
        self.location_x = location_x;
        self.location_y = location_y;
    }
}

/// Every entity's own id and whether it is still in use.
#[derive(Clone, Copy, PartialEq, Eq, Structural, Debug)]
pub struct EntityComponent {
    pub id: usize,
    pub in_use: bool,
}

impl EntityComponent {
    pub fn new(id: usize) -> (r: EntityComponent)
        ensures
            r.id == id,
            r.in_use,
    {
        EntityComponent { id, in_use: true }
    }
}

/// How much health an entity has left.
#[derive(Clone, Copy, PartialEq, Eq, Structural, Debug)]
pub struct HealthComponent {
    pub current_amount: usize,
}

impl HealthComponent {
    pub fn new(current_amount: usize) -> (r: HealthComponent)
        ensures
            r.current_amount == current_amount,
    {
        HealthComponent { current_amount }
    }

    /// Takes damage; health never drops below zero.
    pub fn do_damage(&mut self, amount: usize)
        ensures
            final(self).current_amount == if amount > old(self).current_amount {
                0
            } else {
                (old(self).current_amount - amount) as usize
            },
    {
        if amount > self.current_amount {
            self.current_amount = 0;
        } else {
            self.current_amount -= amount;
        }
    }
}

/// Where a moving entity is heading: a location, or within range of a character.
#[derive(Clone, Copy, PartialEq, Eq, Structural, Debug)]
pub enum MovementType {
    Location,
    AttackMove(usize, usize),
}

/// The movement an entity is carrying out.
#[derive(Clone, Copy, PartialEq, Eq, Structural, Debug)]
pub struct MovementStateComponent {
    pub is_moving: bool,
    pub destination_x: i64,
    pub destination_y: i64,
    pub can_move: bool,
    pub move_speed: usize,
    pub current_move_speed: usize,
    pub movement_type: MovementType,
}

impl MovementStateComponent {
    pub fn new(move_speed: usize) -> (r: MovementStateComponent)
        ensures
            r == (MovementStateComponent {
                is_moving: false,
                destination_x: 0,
                destination_y: 0,
                can_move: true,
                move_speed,
                current_move_speed: move_speed,
                movement_type: MovementType::Location,
            }),
    {
        MovementStateComponent {
            is_moving: false,
            destination_x: 0,
            destination_y: 0,
            can_move: true,
            move_speed,
            current_move_speed: move_speed,
            movement_type: MovementType::Location,
        }
    }

    /// Leaves the movement as it is.
    pub fn stop_moving(&mut self)
        ensures
            *final(self) == *old(self),
    {
    }

    pub fn start_moving(&mut self, destination_x: i64, destination_y: i64)
        ensures
            *final(self) == (MovementStateComponent {
                is_moving: true,
                destination_x,
                destination_y,
                movement_type: MovementType::Location,
                ..*old(self)
            }),
    {
        self.is_moving = true;
        self.destination_x = destination_x;
        self.destination_y = destination_y;
        self.movement_type = MovementType::Location;
    }

    pub fn start_attack_moving(&mut self, character: usize, maximum_range: usize)
        ensures
            *final(self) == (MovementStateComponent {
                is_moving: true,
                movement_type: MovementType::AttackMove(character, maximum_range),
                ..*old(self)
            }),
    {
        self.is_moving = true;
        self.movement_type = MovementType::AttackMove(character, maximum_range);
    }
}

/// Where an entity stands on the grid.
#[derive(Clone, Copy, PartialEq, Eq, Structural, Debug)]
pub struct PositionComponent {
    pub x: i64,
    pub y: i64,
}

impl PositionComponent {
    pub fn new(x: i64, y: i64) -> (r: PositionComponent)
        ensures
            r.x == x,
            r.y == y,
    {
        PositionComponent { x, y }
    }

    /// Moves by an offset.
    pub fn update_position(&mut self, x: i64, y: i64)
        requires
            i64::MIN <= old(self).x + x <= i64::MAX,
            i64::MIN <= old(self).y + y <= i64::MAX,
        ensures
            final(self).x == old(self).x + x,
            final(self).y == old(self).y + y,
    {
        self.x += x;
        self.y += y;
    }
}

/// The size of an entity; every entity is a circle.
#[derive(Clone, Copy, PartialEq, Eq, Structural, Debug)]
pub struct RadiusComponent {
    pub radius: i64,
}

impl RadiusComponent {
    pub fn new(radius: i64) -> (r: RadiusComponent)
        ensures
            r.radius == radius,
    {
        RadiusComponent { radius }
    }
}

/// The team an entity fights for.
#[derive(Clone, Copy, PartialEq, Eq, Structural, Debug)]
pub struct TeamComponent {
    pub team: usize,
}

impl TeamComponent {
    pub fn new(team: usize) -> (r: TeamComponent)
        ensures
            r.team == team,
    {
        TeamComponent { team }
    }
}

/// What a zombie is doing.
#[derive(Clone, Copy, PartialEq, Eq, Structural, Debug)]
pub enum ZomebieState {
    Idle { walk_timer: usize },
    Fighting { target: usize },
    Hunting { location_x: i64, location_y: i64 },
}

/// How long an idle zombie waits before it wanders.
pub const ZOMBIE_WALK_TIMER_MAX: usize = 240;

/// Drives a zombie's behaviour.
#[derive(Clone, Copy, PartialEq, Eq, Structural, Debug)]
pub struct ZomebieControllerComponent {
    pub state: ZomebieState,
}

/// Calls `rand::Rng::gen_range` on `rand::thread_rng()` over `low..high`.
/// Claimed: the result lies in `low..high` (the call panics on an empty
/// range, which `requires` rules out); which value comes out is left to chance.
#[verifier::external_body]
fn random_in_range(low: usize, high: usize) -> (r: usize)
    requires
        low < high,
    ensures
        low <= r < high,
{
    rand::thread_rng().gen_range(low..high)
}

/// The longest a new zombie's first idle timer starts at, exclusive.
pub const ZOMBIE_INITIAL_WALK_TIMER_BOUND: usize = 10;

impl ZomebieControllerComponent {
    /// A new zombie is idle, with a walk timer drawn at random below 10.
    pub fn new() -> (r: ZomebieControllerComponent)
        ensures
            r.state matches ZomebieState::Idle { walk_timer } && walk_timer
                < ZOMBIE_INITIAL_WALK_TIMER_BOUND,
    {
        ZomebieControllerComponent {
            state: ZomebieState::Idle {
                walk_timer: random_in_range(0, ZOMBIE_INITIAL_WALK_TIMER_BOUND),
            },
        }
    }
}


/// How many input snapshots a champion holds.
pub const CHAMPION_INPUT_SLOTS: usize = 16;

/// Stands for a player: which champion it is, and the inputs the server knows
/// of that it has yet to use, oldest first. `M` is the snapshot of a mouse.
#[derive(Clone, Copy, Debug)]
pub struct ChampionComponent<M> {
    pub champion_index: u8,
    pub desired_inputs: [M; 16],
    pub current_input_to_use: usize,
}

impl<M: Copy> ChampionComponent<M> {
    /// A champion whose input slots all hold `blank_input`.
    pub fn new(champion_index: u8, blank_input: M) -> (r: ChampionComponent<M>)
        ensures
            r.champion_index == champion_index,
            forall|i: int| 0 <= i < 16 ==> r.desired_inputs[i] == blank_input,
            r.current_input_to_use == 0,
    {
        ChampionComponent {
            champion_index,
            desired_inputs: [blank_input; 16],
            current_input_to_use: 0,
        }
    }

    /// Takes the oldest input not yet used; `None` once all 16 are used.
    pub fn get_current_input(&mut self) -> (r: Option<M>)
        ensures
            final(self).champion_index == old(self).champion_index,
            final(self).desired_inputs == old(self).desired_inputs,
            old(self).current_input_to_use < CHAMPION_INPUT_SLOTS ==> {
                &&& r == Some(old(self).desired_inputs[old(self).current_input_to_use as int])
                &&& final(self).current_input_to_use == old(self).current_input_to_use + 1
            },
            old(self).current_input_to_use >= CHAMPION_INPUT_SLOTS ==> {
                &&& r is None
                &&& final(self).current_input_to_use == old(self).current_input_to_use
            },
    {
        if self.current_input_to_use < CHAMPION_INPUT_SLOTS {
            self.current_input_to_use += 1;
            return Some(self.desired_inputs[self.current_input_to_use - 1]);
        } else {
            return None;
        }
    }
}

} // verus!
