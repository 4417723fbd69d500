use hypr_flight::asteroid::AsteroidSize;
use hypr_flight::combat::{death_outcome, DeathOutcome, Health};

#[test]
fn health_grows_with_size() {
    assert_eq!(AsteroidSize::Small.health(), 1);
    assert_eq!(AsteroidSize::Medium.health(), 2);
    assert_eq!(AsteroidSize::Large.health(), 3);
}

#[test]
fn split_goes_one_size_down() {
    assert_eq!(AsteroidSize::Large.split(), Some(AsteroidSize::Medium));
    assert_eq!(AsteroidSize::Medium.split(), Some(AsteroidSize::Small));
    assert_eq!(AsteroidSize::Small.split(), None);
}

#[test]
fn split_chain_ends_after_rank_plus_one_generations() {
    let mut size = Some(AsteroidSize::Large);
    let mut generations = 0;
    while let Some(s) = size {
        generations += 1;
        size = s.split();
    }
    assert_eq!(generations, 3);
}

#[test]
fn take_hit_counts_down_and_stops_at_zero() {
    let mut h = Health(2);
    h.take_hit();
    assert_eq!(h, Health(1));
    h.take_hit();
    assert_eq!(h, Health(0));
    h.take_hit();
    assert_eq!(h, Health(0));
}

#[test]
fn large_asteroid_takes_three_hits() {
    let mut h = Health(AsteroidSize::Large.health());
    let mut hits = 0;
    while death_outcome(h.0, Some(AsteroidSize::Large), false) == DeathOutcome::Alive {
        h.take_hit();
        hits += 1;
    }
    assert_eq!(hits, 3);
}

#[test]
fn living_entities_are_left_alone() {
    assert_eq!(death_outcome(1, Some(AsteroidSize::Large), false), DeathOutcome::Alive);
    assert_eq!(death_outcome(5, None, true), DeathOutcome::Alive);
    assert_eq!(death_outcome(u32::MAX, None, false), DeathOutcome::Alive);
}

#[test]
fn dead_asteroids_shatter_or_vanish() {
    assert_eq!(
        death_outcome(0, Some(AsteroidSize::Large), false),
        DeathOutcome::Shatter(AsteroidSize::Medium)
    );
    assert_eq!(
        death_outcome(0, Some(AsteroidSize::Medium), false),
        DeathOutcome::Shatter(AsteroidSize::Small)
    );
    assert_eq!(death_outcome(0, Some(AsteroidSize::Small), false), DeathOutcome::Despawn);
}

#[test]
fn asteroid_marker_wins_over_ship_marker() {
    assert_eq!(
        death_outcome(0, Some(AsteroidSize::Large), true),
        DeathOutcome::Shatter(AsteroidSize::Medium)
    );
    assert_eq!(death_outcome(0, Some(AsteroidSize::Small), true), DeathOutcome::Despawn);
}

#[test]
fn dead_ship_respawns_and_others_despawn() {
    assert_eq!(death_outcome(0, None, true), DeathOutcome::Respawn);
    assert_eq!(death_outcome(0, None, false), DeathOutcome::Despawn);
}
