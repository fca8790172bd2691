use grid_sight::combat::{
    apply_damage, process_attack, CombatStats, Defense, Health, Potion, Power, SufferDamage,
};

#[test]
fn health_starts_full() {
    let h = Health::new(30);
    assert_eq!(h, Health { max: 30, current: 30, min: 0 });
    assert!(!h.is_dead());
}

#[test]
fn taking_damage_can_kill() {
    let mut h = Health::new(5);
    h.take_damage(3);
    assert_eq!(h.current, 2);
    assert!(!h.is_dead());
    h.take_damage(2);
    assert!(h.is_dead());
}

#[test]
fn damage_is_power_beyond_defense() {
    let mut d = SufferDamage::new();
    let h = Health::new(10);
    assert_eq!(process_attack(&mut d, &h, &Power(5), &Defense(2)), Some(3));
    assert_eq!(process_attack(&mut d, &h, &Power(1), &Defense(4)), Some(0));
    assert_eq!(d.amount, vec![3, 0]);
}

#[test]
fn no_blow_below_the_floor() {
    let mut d = SufferDamage::new();
    let h = Health { max: 10, current: -1, min: 0 };
    assert_eq!(process_attack(&mut d, &h, &Power(5), &Defense(2)), None);
    assert!(d.amount.is_empty());
}

#[test]
fn damage_applies_at_once() {
    let mut h = Health::new(30);
    let mut d = SufferDamage::new();
    d.add_damage(4);
    d.add_damage(7);
    apply_damage(&mut h, &mut d);
    assert_eq!(h.current, 19);
    assert!(d.amount.is_empty());
    assert_eq!(d.drain(), Vec::<i32>::new());
}

#[test]
fn stats_and_potions() {
    let (h, p, d, s) = CombatStats::new(30, 5, 2).parts();
    assert_eq!(h, Health::new(30));
    assert_eq!(p, Power(5));
    assert_eq!(d, Defense(2));
    assert_eq!(s, SufferDamage::new());
    assert_eq!(Potion::new(8).amount, 8);
}
