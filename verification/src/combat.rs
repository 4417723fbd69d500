use vstd::prelude::*;

use crate::asteroid::AsteroidSize;

verus! {

/// Hit points left after one hit: one fewer, but never below zero.
pub open spec fn after_hit(h: u32) -> u32 {
    if h == 0 {
        0
    } else {
        (h - 1) as u32
    }
}

/// Hit points left after `n` hits.
pub open spec fn after_hits(h: u32, n: nat) -> u32
    decreases n,
{
    if n == 0 {
        h
    } else {
        after_hit(after_hits(h, (n - 1) as nat))
    }
}

/// Hit points of a ship or an asteroid.
#[derive(Clone, Copy, PartialEq, Eq, Debug, Structural)]
pub struct Health(pub u32);

impl Health {
    /// One hit: a bullet connecting, or a ship touching an asteroid once its
    /// contact cooldown has run out. Hit points never drop below zero.
    pub fn take_hit(&mut self)
        ensures
            final(self).0 == after_hit(old(self).0),
    {
        self.0 = self.0.saturating_sub(1);
    }
}

/// What happens to an entity after combat has been resolved for a step.
#[derive(Clone, Copy, PartialEq, Eq, Debug, Structural)]
pub enum DeathOutcome {
    /// Still has hit points: nothing happens.
    Alive,
    /// A destroyed asteroid: it is removed and two fragments of the given size
    /// are thrown out sideways.
    Shatter(AsteroidSize),
    /// Removed without a trace: the smallest asteroids, and anything dead
    /// that is neither an asteroid nor the ship.
    Despawn,
    /// The ship: it goes back to the level start with full health.
    Respawn,
}

/// The outcome for an entity at zero health is decided first by whether it
/// is an asteroid (which splits or vanishes), then by whether it is the
/// ship (which respawns); anything else is simply removed.
pub open spec fn spec_death_outcome(health: u32, asteroid: Option<AsteroidSize>, is_ship: bool) -> DeathOutcome {
    if health > 0 {
        DeathOutcome::Alive
    } else {
        match asteroid {
            Some(size) => match size.spec_split() {
                Some(smaller) => DeathOutcome::Shatter(smaller),
                None => DeathOutcome::Despawn,
            },
            None => if is_ship {
                DeathOutcome::Respawn
            } else {
                DeathOutcome::Despawn
            },
        }
    }
}

/// Decide what becomes of an entity with the given health, asteroid size (if
/// it is an asteroid) and ship marker.
pub fn death_outcome(health: u32, asteroid: Option<AsteroidSize>, is_ship: bool) -> (r: DeathOutcome)
    ensures
        r == spec_death_outcome(health, asteroid, is_ship),
{
    if health > 0 {
        return DeathOutcome::Alive;
    }
    match asteroid {
        Some(size) => match size.split() {
            Some(smaller) => DeathOutcome::Shatter(smaller),
            None => DeathOutcome::Despawn,
        },
        None => {
            if is_ship {
                DeathOutcome::Respawn
            } else {
                DeathOutcome::Despawn
            }
        },
    }
}

/// Only dead entities change: every living one is left alone, and every dead
/// one leaves the world unless it is the ship.
pub proof fn lemma_only_the_dead_change(health: u32, asteroid: Option<AsteroidSize>, is_ship: bool)
    ensures
        spec_death_outcome(health, asteroid, is_ship) == DeathOutcome::Alive <==> health > 0,
        spec_death_outcome(health, asteroid, is_ship) == DeathOutcome::Respawn <==> (health == 0
            && asteroid is None && is_ship),
{
}

/// Fragments are always strictly smaller than the asteroid they came from,
/// so a chain of destructions cannot go on for ever.
pub proof fn lemma_fragments_are_smaller(health: u32, size: AsteroidSize, is_ship: bool)
    ensures
        spec_death_outcome(health, Some(size), is_ship) matches DeathOutcome::Shatter(s) ==> s.rank()
            < size.rank(),
{
}

/// `n` hits take away `n` hit points, down to zero and no further.
pub proof fn lemma_after_hits(h: u32, n: nat)
    ensures
        after_hits(h, n) == (if n >= h { 0 } else { h - n }),
    decreases n,
{
    if n > 0 {
        lemma_after_hits(h, (n - 1) as nat);
    }
}

/// A freshly spawned asteroid survives one hit fewer than its starting
/// health and is destroyed by the next: one bullet for a small one, three
/// for a large one.
pub proof fn lemma_hits_to_destroy(size: AsteroidSize, n: nat)
    ensures
        spec_death_outcome(after_hits(size.spec_health(), n), Some(size), false)
            != DeathOutcome::Alive <==> n >= size.spec_health(),
{
    lemma_after_hits(size.spec_health(), n);
}

} // verus!
