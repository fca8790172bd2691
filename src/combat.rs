//! Hit points, attack and defence, and the damage an attack deals.

use vstd::prelude::*;

verus! {

#[derive(Debug, Clone, Copy, PartialEq, Eq)]
pub struct Health {
    pub max: i32,
    pub current: i32,
    pub min: i32,
}

impl Health {
    /// Full health at `current`, with 0 as the floor.
    pub fn new(current: i32) -> (r: Health)
        ensures
            r.max == current,
            r.current == current,
            r.min == 0,
    {
        Health { max: current, current, min: 0 }
    }

    pub fn take_damage(&mut self, damage: i32)
        requires
            i32::MIN <= old(self).current - damage <= i32::MAX,
        ensures
            final(self).current == old(self).current - damage,
            final(self).max == old(self).max,
            final(self).min == old(self).min,
    {
        self.current = self.current - damage;
    }

    pub fn is_dead(&self) -> (r: bool)
        ensures
            r == (self.current <= self.min),
    {
        self.current <= self.min
    }
}

#[derive(Debug, Clone, Copy, PartialEq, Eq)]
pub struct Power(pub i32);

#[derive(Debug, Clone, Copy, PartialEq, Eq)]
pub struct Defense(pub i32);

/// The sum of a list of damages.
pub open spec fn total(s: Seq<i32>) -> int
    decreases s.len(),
{
    if s.len() == 0 {
        0
    } else {
        total(s.drop_last()) + s.last()
    }
}

/// Damage taken this turn, not yet applied to health.
#[derive(Debug, Clone, PartialEq, Eq)]
pub struct SufferDamage {
    pub amount: Vec<i32>,
}

impl SufferDamage {
    pub fn new() -> (r: SufferDamage)
        ensures
            r.amount@ == Seq::<i32>::empty(),
    {
        SufferDamage { amount: Vec::new() }
    }

    pub fn add_damage(&mut self, damage: i32)
        ensures
            final(self).amount@ == old(self).amount@.push(damage),
    {
        self.amount.push(damage);
    }

    /// Takes out every recorded damage, oldest first.
    pub fn drain(&mut self) -> (r: Vec<i32>)
        ensures
            r@ == old(self).amount@,
            final(self).amount@ == Seq::<i32>::empty(),
    {
        let mut taken: Vec<i32> = Vec::new();
        std::mem::swap(&mut self.amount, &mut taken);
        taken
    }
}

/// The combat records an agent starts with.
#[derive(Debug, Clone, PartialEq, Eq)]
pub struct CombatStats {
    health: Health,
    power: Power,
    defense: Defense,
    damage: SufferDamage,
}

impl CombatStats {
    pub fn new(health: i32, power: i32, defense: i32) -> (r: CombatStats)
        ensures
            r.health() == (Health { max: health, current: health, min: 0 }),
            r.power() == Power(power),
            r.defense() == Defense(defense),
            r.damage().amount@ == Seq::<i32>::empty(),
    {
        CombatStats {
            health: Health::new(health),
            power: Power(power),
            defense: Defense(defense),
            damage: SufferDamage::new(),
        }
    }

    pub closed spec fn health(&self) -> Health {
        self.health
    }

    pub closed spec fn power(&self) -> Power {
        self.power
    }

    pub closed spec fn defense(&self) -> Defense {
        self.defense
    }

    pub closed spec fn damage(&self) -> SufferDamage {
        self.damage
    }

    pub fn parts(self) -> (r: (Health, Power, Defense, SufferDamage))
        ensures
            r.0 == self.health(),
            r.1 == self.power(),
            r.2 == self.defense(),
            r.3 == self.damage(),
    {
        (self.health, self.power, self.defense, self.damage)
    }
}

/// An item that can be picked up.
#[derive(Debug, Clone, Copy, PartialEq, Eq)]
pub struct Item;

/// A potion that restores `amount` hit points.
#[derive(Debug, Clone, Copy, PartialEq, Eq)]
pub struct Potion {
    pub amount: i32,
}

impl Potion {
    pub fn new(amount: i32) -> (r: Potion)
        ensures
            r.amount == amount,
    {
        Potion { amount }
    }
}

/// The damage of a blow: power beyond defence, never below 0.
pub open spec fn blow(power: int, defense: int) -> int {
    if power - defense > 0 {
        power - defense
    } else {
        0
    }
}

/// Records on `target` the damage of a blow of `power` against `defense`,
/// and returns it; a target already below its floor takes no blow (`None`).
pub fn process_attack(
    target: &mut SufferDamage,
    health: &Health,
    power: &Power,
    defense: &Defense,
) -> (r: Option<i32>)
    requires
        i32::MIN <= power.0 - defense.0 <= i32::MAX,
    ensures
        health.current < health.min ==> r is None && final(target).amount@ == old(target).amount@,
        health.current >= health.min ==> r == Some(blow(power.0 as int, defense.0 as int) as i32)
            && final(target).amount@ == old(target).amount@.push(r->0),
{
    if health.current < health.min {
        return None;
    }
    let diff = power.0 - defense.0;
    let damage = if diff > 0 {
        diff
    } else {
        0
    };
    target.add_damage(damage);
    Some(damage)
}

/// Applies the damage recorded this turn to `health`, all at once.
pub fn apply_damage(health: &mut Health, suffer_damage: &mut SufferDamage)
    requires
        i32::MIN <= old(health).current - total(old(suffer_damage).amount@) <= i32::MAX,
        forall|i: int|
            0 <= i <= old(suffer_damage).amount@.len() ==> i32::MIN <= #[trigger] total(
                old(suffer_damage).amount@.subrange(0, i),
            ) <= i32::MAX,
    ensures
        final(health).current == old(health).current - total(old(suffer_damage).amount@),
        final(health).max == old(health).max,
        final(health).min == old(health).min,
        final(suffer_damage).amount@ == Seq::<i32>::empty(),
{
    let taken = suffer_damage.drain();
    let mut sum: i32 = 0;
    let mut i: usize = 0;
    while i < taken.len()
        invariant
            0 <= i <= taken@.len(),
            forall|k: int| 0 <= k <= taken@.len() ==> i32::MIN <= #[trigger] total(taken@.subrange(0, k)) <= i32::MAX,
            sum == total(taken@.subrange(0, i as int)),
        decreases taken@.len() - i,
    {
        assert(taken@.subrange(0, i + 1).drop_last() =~= taken@.subrange(0, i as int));
        assert(i32::MIN <= total(taken@.subrange(0, i + 1)) <= i32::MAX);
        sum = sum + taken[i];
        i += 1;
    }
    assert(taken@.subrange(0, taken@.len() as int) =~= taken@);
    health.take_damage(sum);
}

} // verus!
