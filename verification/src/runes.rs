use vstd::prelude::*;
use std::collections::HashMap;
use crate::components::{PositionComponent, HealthComponent};

verus! {

broadcast use vstd::std_specs::hash::group_hash_axioms;

/// Damage dealt by one entity to another.
#[derive(Clone, Copy, PartialEq, Eq, Structural, Debug)]
pub struct DamageRune {
    pub source: usize,
    pub target: usize,
    pub amount: usize,
}

impl DamageRune {
    pub fn new(source: usize, target: usize, amount: usize) -> (r: DamageRune)
        ensures
            r == (DamageRune { source, target, amount }),
    {
        DamageRune { source, target, amount }
    }
}

/// A grid offset by which an entity moves.
#[derive(Clone, Copy, PartialEq, Eq, Structural, Debug)]
pub struct MoveRune {
    pub entity: usize,
    pub offset_x: i64,
    pub offset_y: i64,
}

impl MoveRune {
    pub fn new(entity: usize, offset_x: i64, offset_y: i64) -> (r: MoveRune)
        ensures
            r == (MoveRune { entity, offset_x, offset_y }),
    {
        MoveRune { entity, offset_x, offset_y }
    }
}

/// Any rune, boxed so runes of every kind can be held together.
#[derive(Debug)]
pub enum Rune {
    MoveRune(Box<MoveRune>),
    DamageRune(Box<DamageRune>),
}

/// The number that orders each kind of rune: moves first, then damage.
pub open spec fn rune_value(rune: Rune) -> usize {
    match rune {
        Rune::MoveRune(_) => 0,
        Rune::DamageRune(_) => 1,
    }
}

impl Rune {
    pub fn value(&self) -> (r: usize)
        ensures
            r == rune_value(*self),
    {
        match self {
            Rune::MoveRune(_) => {
                return 0;
            },
            Rune::DamageRune(_) => {
                return 1;
            },
        }
    }
}

impl From<DamageRune> for Rune {
    fn from(rune: DamageRune) -> (r: Rune) {
        Rune::DamageRune(Box::new(rune))
    }
}

impl vstd::std_specs::convert::FromSpecImpl<DamageRune> for Rune {
    open spec fn obeys_from_spec() -> bool {
        true
    }

    open spec fn from_spec(rune: DamageRune) -> Rune {
        Rune::DamageRune(Box::new(rune))
    }
}

impl From<MoveRune> for Rune {
    fn from(rune: MoveRune) -> (r: Rune) {
        Rune::MoveRune(Box::new(rune))
    }
}

impl vstd::std_specs::convert::FromSpecImpl<MoveRune> for Rune {
    open spec fn obeys_from_spec() -> bool {
        true
    }

    open spec fn from_spec(rune: MoveRune) -> Rune {
        Rune::MoveRune(Box::new(rune))
    }
}

/// The move a rune holds (meaningful for move runes).
pub open spec fn move_of(rune: Rune) -> MoveRune {
    match rune {
        Rune::MoveRune(m) => *m,
        Rune::DamageRune(_) => MoveRune { entity: 0, offset_x: 0, offset_y: 0 },
    }
}

/// The damage a rune holds (meaningful for damage runes).
pub open spec fn damage_of(rune: Rune) -> DamageRune {
    match rune {
        Rune::DamageRune(d) => *d,
        Rune::MoveRune(_) => DamageRune { source: 0, target: 0, amount: 0 },
    }
}

/// Positions after applying moves in order: each move shifts the position
/// of its entity, if that entity has one.
pub open spec fn moved_positions(
    positions: Seq<Option<PositionComponent>>,
    moves: Seq<MoveRune>,
) -> Seq<Option<PositionComponent>>
    decreases moves.len(),
{
    if moves.len() == 0 {
        positions
    } else {
        let before = moved_positions(positions, moves.drop_last());
        let m = moves.last();
        match if m.entity < before.len() { before[m.entity as int] } else { None } {
            Some(p) => before.update(
                m.entity as int,
                Some(
                    PositionComponent {
                        x: (p.x + m.offset_x) as i64,
                        y: (p.y + m.offset_y) as i64,
                    },
                ),
            ),
            None => before,
        }
    }
}

/// Every move names an entity in range and keeps its coordinates within `i64`.
pub open spec fn moves_fit(positions: Seq<Option<PositionComponent>>, moves: Seq<MoveRune>) -> bool
    decreases moves.len(),
{
    if moves.len() == 0 {
        true
    } else {
        let before = moved_positions(positions, moves.drop_last());
        let m = moves.last();
        &&& moves_fit(positions, moves.drop_last())
        &&& m.entity < positions.len()
        &&& match before[m.entity as int] {
            Some(p) => i64::MIN <= p.x + m.offset_x <= i64::MAX && i64::MIN <= p.y + m.offset_y
                <= i64::MAX,
            None => true,
        }
    }
}

/// Health after applying damage in order; health never drops below zero.
pub open spec fn damaged_health(
    health: Seq<Option<HealthComponent>>,
    damages: Seq<DamageRune>,
) -> Seq<Option<HealthComponent>>
    decreases damages.len(),
{
    if damages.len() == 0 {
        health
    } else {
        let before = damaged_health(health, damages.drop_last());
        let d = damages.last();
        match if d.target < before.len() { before[d.target as int] } else { None } {
            Some(h) => before.update(
                d.target as int,
                Some(
                    HealthComponent {
                        current_amount: if d.amount > h.current_amount {
                            0
                        } else {
                            (h.current_amount - d.amount) as usize
                        },
                    },
                ),
            ),
            None => before,
        }
    }
}

proof fn lemma_moved_positions_len(positions: Seq<Option<PositionComponent>>, moves: Seq<MoveRune>)
    ensures
        moved_positions(positions, moves).len() == positions.len(),
    decreases moves.len(),
{
    if moves.len() > 0 {
        lemma_moved_positions_len(positions, moves.drop_last());
    }
}

proof fn lemma_damaged_health_len(health: Seq<Option<HealthComponent>>, damages: Seq<DamageRune>)
    ensures
        damaged_health(health, damages).len() == health.len(),
    decreases damages.len(),
{
    if damages.len() > 0 {
        lemma_damaged_health_len(health, damages.drop_last());
    }
}

/// Law: damage accumulates. Applying damage runes `first` and then `second`
/// gives the health that applying `second` to the health left by `first`
/// gives; and one damage rune takes its amount off its target's health (to
/// no less than zero) and leaves every other entity's health as it is.
pub proof fn lemma_damage_accumulates(
    health: Seq<Option<HealthComponent>>,
    first: Seq<DamageRune>,
    second: Seq<DamageRune>,
    d: DamageRune,
)
    ensures
        damaged_health(health, first + second) == damaged_health(damaged_health(health, first), second),
        damaged_health(health, seq![d]).len() == health.len(),
        d.target < health.len() ==> (health[d.target as int] matches Some(h) ==> damaged_health(health, seq![d])[d.target as int]
            == Some(HealthComponent {
                current_amount: if d.amount > h.current_amount { 0 } else { (h.current_amount - d.amount) as usize },
            })),
        forall|i: int| 0 <= i < health.len() && (i != d.target || health[i] is None) ==> #[trigger] damaged_health(health, seq![d])[i] == health[i],
    decreases second.len(),
{
    lemma_damaged_health_len(health, seq![d]);
    assert(seq![d].drop_last() =~= Seq::<DamageRune>::empty());
    assert(damaged_health(health, seq![d].drop_last()) == health);
    assert(seq![d].last() == d);
    if second.len() == 0 {
        assert(first + second =~= first);
    } else {
        lemma_damage_accumulates(health, first, second.drop_last(), d);
        assert((first + second).drop_last() =~= first + second.drop_last());
        assert((first + second).last() == second.last());
    }
}

/// Law: moves accumulate. Applying move runes `first` and then `second`
/// gives the positions that applying `second` to the positions left by
/// `first` gives; and one move shifts its entity's position by its offset and
/// leaves every other position as it is.
pub proof fn lemma_moves_accumulate(
    positions: Seq<Option<PositionComponent>>,
    first: Seq<MoveRune>,
    second: Seq<MoveRune>,
    m: MoveRune,
)
    ensures
        moved_positions(positions, first + second) == moved_positions(moved_positions(positions, first), second),
        moved_positions(positions, seq![m]).len() == positions.len(),
        m.entity < positions.len() ==> (positions[m.entity as int] matches Some(p) ==> moved_positions(positions, seq![m])[m.entity as int]
            == Some(PositionComponent { x: (p.x + m.offset_x) as i64, y: (p.y + m.offset_y) as i64 })),
        forall|i: int| 0 <= i < positions.len() && (i != m.entity || positions[i] is None) ==> #[trigger] moved_positions(positions, seq![m])[i] == positions[i],
    decreases second.len(),
{
    lemma_moved_positions_len(positions, seq![m]);
    assert(seq![m].drop_last() =~= Seq::<MoveRune>::empty());
    assert(moved_positions(positions, seq![m].drop_last()) == positions);
    assert(seq![m].last() == m);
    if second.len() == 0 {
        assert(first + second =~= first);
    } else {
        lemma_moves_accumulate(positions, first, second.drop_last(), m);
        assert((first + second).drop_last() =~= first + second.drop_last());
        assert((first + second).last() == second.last());
    }
}

/// Every rune is held under its own kind's value.
pub open spec fn grouped_by_kind(runes: Map<usize, Seq<Rune>>) -> bool {
    forall|k: usize, i: int|
        #![trigger runes[k][i]]
        runes.contains_key(k) && 0 <= i < runes[k].len() ==> rune_value(runes[k][i]) == k
}

/// The runes held after adding one: it goes to the back of its kind's runes.
pub open spec fn with_rune(runes: Map<usize, Seq<Rune>>, rune: Rune) -> Map<usize, Seq<Rune>> {
    runes.insert(
        rune_value(rune),
        if runes.contains_key(rune_value(rune)) {
            runes[rune_value(rune)].push(rune)
        } else {
            seq![rune]
        },
    )
}

/// Every damage names an entity in range.
pub open spec fn damages_fit(health: Seq<Option<HealthComponent>>, damages: Seq<DamageRune>) -> bool {
    forall|i: int| 0 <= i < damages.len() ==> #[trigger] damages[i].target < health.len()
}

/// The moves held by a sequence of runes.
pub open spec fn moves_of(runes: Seq<Rune>) -> Seq<MoveRune> {
    runes.map_values(|r: Rune| move_of(r))
}

/// The damages held by a sequence of runes.
pub open spec fn damages_of(runes: Seq<Rune>) -> Seq<DamageRune> {
    runes.map_values(|r: Rune| damage_of(r))
}

proof fn lemma_moves_fit_prefix(
    positions: Seq<Option<PositionComponent>>,
    moves: Seq<MoveRune>,
    k: int,
)
    requires
        moves_fit(positions, moves),
        0 <= k <= moves.len(),
    ensures
        moves_fit(positions, moves.take(k)),
    decreases moves.len(),
{
    if k == moves.len() {
        assert(moves.take(k) =~= moves);
    } else {
        lemma_moves_fit_prefix(positions, moves.drop_last(), k);
        assert(moves.drop_last().take(k) =~= moves.take(k));
    }
}

/// Whether moves applied in order keep to `moves_fit`: each names an entity
/// in range and keeps its coordinates within `i64`.
fn check_moves_fit(positions: &Vec<Option<PositionComponent>>, runes: &Vec<Rune>) -> (r: bool)
    ensures
        r == moves_fit(positions@, moves_of(runes@)),
{
    let ghost moves = moves_of(runes@);
    let ghost orig = positions@;
    let mut moved: Vec<Option<PositionComponent>> = Vec::new();
    let mut k: usize = 0;
    while k < positions.len()
        invariant
            k <= positions@.len(),
            moved@ == positions@.take(k as int),
        decreases positions@.len() - k,
    {
        moved.push(positions[k]);
        k += 1;
        proof {
            assert(moved@ =~= positions@.take(k as int));
        }
    }
    proof {
        assert(moved@ =~= orig);
        assert(moves.take(0) =~= Seq::<MoveRune>::empty());
    }
    let mut i: usize = 0;
    while i < runes.len()
        invariant
            moves == moves_of(runes@),
            orig == positions@,
            i <= runes@.len(),
            moves_fit(orig, moves.take(i as int)),
            moved@ == moved_positions(orig, moves.take(i as int)),
        decreases runes@.len() - i,
    {
        proof {
            assert(moves.take(i + 1).drop_last() =~= moves.take(i as int));
            assert(moves.take(i + 1).last() == moves[i as int]);
            lemma_moved_positions_len(orig, moves.take(i as int));
        }
        let m: MoveRune = match &runes[i] {
            Rune::MoveRune(m) => **m,
            Rune::DamageRune(_) => MoveRune { entity: 0, offset_x: 0, offset_y: 0 },
        };
        if m.entity >= moved.len() {
            proof {
                if moves_fit(orig, moves) {
                    lemma_moves_fit_prefix(orig, moves, i + 1);
                }
            }
            return false;
        }
        match moved[m.entity] {
            Some(p) => {
                let x = p.x.checked_add(m.offset_x);
                let y = p.y.checked_add(m.offset_y);
                match (x, y) {
                    (Some(x), Some(y)) => {
                        moved.set(m.entity, Some(PositionComponent { x, y }));
                    },
                    _ => {
                        proof {
                            if moves_fit(orig, moves) {
                                lemma_moves_fit_prefix(orig, moves, i + 1);
                            }
                        }
                        return false;
                    },
                }
            },
            None => {},
        }
        i += 1;
        proof {
            assert(moved@ =~= moved_positions(orig, moves.take(i as int)));
        }
    }
    proof {
        assert(moves.take(runes@.len() as int) =~= moves);
    }
    true
}

/// Whether every damage names an entity in range.
fn check_damages_fit(health: &Vec<Option<HealthComponent>>, runes: &Vec<Rune>) -> (r: bool)
    ensures
        r == damages_fit(health@, damages_of(runes@)),
{
    let ghost damages = damages_of(runes@);
    let mut i: usize = 0;
    while i < runes.len()
        invariant
            damages == damages_of(runes@),
            i <= runes@.len(),
            forall|j: int| 0 <= j < i ==> #[trigger] damages[j].target < health@.len(),
        decreases runes@.len() - i,
    {
        let target = match &runes[i] {
            Rune::DamageRune(d) => d.target,
            Rune::MoveRune(_) => 0,
        };
        if target >= health.len() {
            proof {
                assert(damages[i as int].target == target);
            }
            return false;
        }
        i += 1;
    }
    true
}

/// Collects runes, grouped by kind, until they are resolved against the world.
pub struct RuneSystem {
    current_runes: HashMap<usize, Vec<Rune>>,
}

impl RuneSystem {
    /// The runes held, by kind.
    pub closed spec fn runes(&self) -> Map<usize, Seq<Rune>> {
        self.current_runes@.map_values(|v: Vec<Rune>| v@)
    }

    /// Every rune is held under its own kind's value.
    #[verifier::type_invariant]
    closed spec fn runes_grouped_by_kind(&self) -> bool {
        forall|k: usize, i: int|
            #![trigger self.current_runes@[k]@[i]]
            self.current_runes@.contains_key(k) && 0 <= i < self.current_runes@[k]@.len()
                ==> rune_value(self.current_runes@[k]@[i]) == k
    }

    pub fn new() -> (r: RuneSystem)
        ensures
            r.runes() == Map::<usize, Seq<Rune>>::empty(),
            grouped_by_kind(r.runes()),
    {
        let r = RuneSystem { current_runes: HashMap::new() };
        proof {
            assert(r.runes() =~= Map::<usize, Seq<Rune>>::empty());
        }
        r
    }

    /// Pushes a rune onto the back of the runes of its kind.
    pub fn add_rune(&mut self, rune: Rune)
        ensures
            final(self).runes() == with_rune(old(self).runes(), rune),
            grouped_by_kind(final(self).runes()),
    {
        proof {
            use_type_invariant(&*self);
        }
        let key = rune.value();
        let mut map: HashMap<usize, Vec<Rune>> = HashMap::new();
        std::mem::swap(&mut map, &mut self.current_runes);
        let ghost old_map = map@;
        let existing = map.remove(&key);
        let mut list = match existing {
            Some(v) => v,
            None => Vec::new(),
        };
        list.push(rune);
        map.insert(key, list);
        std::mem::swap(&mut map, &mut self.current_runes);
        proof {
            use_type_invariant(&*self);
            assert(self.runes() =~= with_rune(old(self).runes(), rune));
        }
    }

    /// Applies move runes in order to the positions: each moves its entity's
    /// position by its offset, if the entity has a position.
    pub fn handle_move_runes(
        &mut self,
        movement_runes: Vec<Rune>,
        positions: &mut Vec<Option<PositionComponent>>,
    )
        requires
            forall|i: int|
                0 <= i < movement_runes@.len() ==> #[trigger] movement_runes@[i] is MoveRune,
            moves_fit(old(positions)@, moves_of(movement_runes@)),
        ensures
            final(positions)@ == moved_positions(old(positions)@, moves_of(movement_runes@)),
            final(self).runes() == old(self).runes(),
    {
        let ghost orig = positions@;
        let ghost moves = moves_of(movement_runes@);
        let mut i: usize = 0;
        proof {
            assert(moves.take(0) =~= Seq::<MoveRune>::empty());
        }
        while i < movement_runes.len()
            invariant
                moves == moves_of(movement_runes@),
                forall|j: int|
                    0 <= j < movement_runes@.len() ==> #[trigger] movement_runes@[j] is MoveRune,
                moves_fit(orig, moves),
                i <= movement_runes@.len(),
                positions@ == moved_positions(orig, moves.take(i as int)),
            decreases movement_runes@.len() - i,
        {
            proof {
                lemma_moves_fit_prefix(orig, moves, i + 1);
                assert(moves.take(i + 1).drop_last() =~= moves.take(i as int));
                lemma_moved_positions_len(orig, moves.take(i as int));
            }
            match &movement_runes[i] {
                Rune::MoveRune(m) => {
                    let entity = m.entity;
                    let offset_x = m.offset_x;
                    let offset_y = m.offset_y;
                    let current = positions[entity];
                    match current {
                        Some(mut position) => {
                            position.update_position(offset_x, offset_y);
                            positions.set(entity, Some(position));
                        },
                        None => {},
                    }
                },
                Rune::DamageRune(_) => {},
            }
            proof {
                assert(moves.take(i + 1).last() == moves[i as int]);
                assert(positions@ =~= moved_positions(orig, moves.take(i + 1)));
            }
            i += 1;
        }
        proof {
            assert(moves.take(movement_runes@.len() as int) =~= moves);
        }
    }

    /// Applies damage runes in order: each damages its target's health, if
    /// the target has health.
    pub fn handle_damage_runes(
        &mut self,
        damage_runes: Vec<Rune>,
        health: &mut Vec<Option<HealthComponent>>,
    )
        requires
            forall|i: int| 0 <= i < damage_runes@.len() ==> #[trigger] damage_runes@[i] is DamageRune,
            damages_fit(old(health)@, damages_of(damage_runes@)),
        ensures
            final(health)@ == damaged_health(old(health)@, damages_of(damage_runes@)),
            final(self).runes() == old(self).runes(),
    {
        let ghost orig = health@;
        let ghost damages = damages_of(damage_runes@);
        let mut i: usize = 0;
        proof {
            assert(damages.take(0) =~= Seq::<DamageRune>::empty());
        }
        while i < damage_runes.len()
            invariant
                damages == damages_of(damage_runes@),
                forall|j: int| 0 <= j < damage_runes@.len() ==> #[trigger] damage_runes@[j] is DamageRune,
                damages_fit(orig, damages),
                i <= damage_runes@.len(),
                health@ == damaged_health(orig, damages.take(i as int)),
            decreases damage_runes@.len() - i,
        {
            proof {
                assert(damages.take(i + 1).drop_last() =~= damages.take(i as int));
                lemma_damaged_health_len(orig, damages.take(i as int));
                assert(damages[i as int].target < orig.len());
            }
            match &damage_runes[i] {
                Rune::DamageRune(d) => {
                    let target = d.target;
                    let amount = d.amount;
                    let current = health[target];
                    match current {
                        Some(mut h) => {
                            h.do_damage(amount);
                            health.set(target, Some(h));
                        },
                        None => {},
                    }
                },
                Rune::MoveRune(_) => {},
            }
            proof {
                assert(damages.take(i + 1).last() == damages[i as int]);
                assert(health@ =~= damaged_health(orig, damages.take(i + 1)));
            }
            i += 1;
        }
        proof {
            assert(damages.take(damage_runes@.len() as int) =~= damages);
        }
    }

    /// Whether the collected runes can be resolved against these columns:
    /// both kinds were collected, every move names an entity in range and
    /// keeps its coordinates within `i64`, and every damage names an entity
    /// in range.
    pub fn can_resolve_world_state(
        &self,
        positions: &Vec<Option<PositionComponent>>,
        health: &Vec<Option<HealthComponent>>,
    ) -> (r: bool)
        ensures
            r == {
                &&& self.runes().contains_key(0)
                &&& self.runes().contains_key(1)
                &&& moves_fit(positions@, moves_of(self.runes()[0]))
                &&& damages_fit(health@, damages_of(self.runes()[1]))
            },
    {
        match (self.current_runes.get(&0), self.current_runes.get(&1)) {
            (Some(movement_runes), Some(damage_runes)) => {
                check_moves_fit(positions, movement_runes) && check_damages_fit(health, damage_runes)
            },
            _ => false,
        }
    }

    /// Resolves the collected runes against the world: first every move,
    /// then every damage. Both kinds must have been collected.
    pub fn resolve_world_state(
        &mut self,
        positions: &mut Vec<Option<PositionComponent>>,
        health: &mut Vec<Option<HealthComponent>>,
    )
        requires
            old(self).runes().contains_key(0),
            old(self).runes().contains_key(1),
            moves_fit(old(positions)@, moves_of(old(self).runes()[0])),
            damages_fit(old(health)@, damages_of(old(self).runes()[1])),
        ensures
            final(self).runes() == old(self).runes().remove(0).remove(1),
            final(positions)@ == moved_positions(old(positions)@, moves_of(old(self).runes()[0])),
            final(health)@ == damaged_health(old(health)@, damages_of(old(self).runes()[1])),
            grouped_by_kind(final(self).runes()),
    {
        proof {
            use_type_invariant(&*self);
        }
        let mut map: HashMap<usize, Vec<Rune>> = HashMap::new();
        std::mem::swap(&mut map, &mut self.current_runes);
        let movement_runes = map.remove(&0).unwrap();
        let damage_runes = map.remove(&1).unwrap();
        std::mem::swap(&mut map, &mut self.current_runes);
        proof {
            assert(self.runes() =~= old(self).runes().remove(0).remove(1));
            assert forall|i: int| 0 <= i < movement_runes@.len() implies #[trigger] movement_runes@[i] is MoveRune by {
                assert(rune_value(old(self).current_runes@[0]@[i]) == 0);
            }
            assert forall|i: int| 0 <= i < damage_runes@.len() implies #[trigger] damage_runes@[i] is DamageRune by {
                assert(rune_value(old(self).current_runes@[1]@[i]) == 1);
            }
        }
        self.handle_move_runes(movement_runes, positions);
        self.handle_damage_runes(damage_runes, health);
        proof {
            use_type_invariant(&*self);
        }
    }
}

} // verus!
